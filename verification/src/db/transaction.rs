//! A transaction: reads and writes on a snapshot of the store, which reach
//! the store only when the transaction is committed.

use vstd::prelude::*;

use crate::db::state::{
    accepted_count, ballot_in, ballot_part, ballot_with_id, candidate_in, candidate_part,
    candidate_refusal, candidate_refused, candidate_rows, insert_ballot_verdict,
    insert_candidate_verdict, last_match, lemma_filter_push, lemma_next_candidate_verdict,
    lemma_with_ballot_touched_wf, lemma_with_ballot_wf, lemma_with_candidate_wf, lemma_with_poll_wf,
    names_of, poll_with_id, ranking_in, ranking_not_of, with_candidates,
};
use crate::db::{
    Ballot, BallotEntry, Candidate, CandidateEntry, PickyDb, Poll, Ranking, RankingView, State,
    StorageError, Tables,
};
use crate::util::{lemma_first_index_is, text_of, views};

verus! {

/// An open transaction.
pub struct PickyPollTransaction {
    tables: Tables,
}

impl View for PickyPollTransaction {
    type V = State;

    closed spec fn view(&self) -> State {
        self.tables@
    }
}

impl PickyPollTransaction {
    /// A transaction on these relations.
    pub(crate) fn new(tables: Tables) -> (tx: PickyPollTransaction)
        ensures
            tx@ == tables@,
    {
        PickyPollTransaction { tables }
    }

    /// The poll with this id, as the transaction sees it.
    pub fn select_poll(&self, id: &str) -> (found: Option<Poll>)
        ensures
            found.is_some() == self@.poll(id@).is_some(),
            found.is_some() ==> found.unwrap()@ == self@.poll(id@).unwrap(),
    {
        let key: String = id.to_owned();
        let ghost keep = poll_with_id(id@);
        let ghost rows = views(self.tables.polls@);
        let mut found: Option<Poll> = None;
        let mut i: usize = 0;
        while i < self.tables.polls.len()
            invariant
                i <= self.tables.polls.len(),
                key@ == id@,
                rows == views(self.tables.polls@),
                keep == poll_with_id(id@),
                found.is_some() == last_match(rows.take(i as int), keep).is_some(),
                found.is_some() ==> found.unwrap()@ == last_match(rows.take(i as int), keep).unwrap(),
            decreases self.tables.polls.len() - i,
        {
            proof {
                lemma_filter_push(rows.take(i as int), rows[i as int], keep);
                assert(rows.take(i as int + 1) =~= rows.take(i as int).push(rows[i as int]));
            }
            if self.tables.polls[i].id == key {
                found = Some(self.tables.polls[i].clone());
            }
            i += 1;
        }
        assert(rows.take(i as int) =~= rows);
        found
    }

    /// Adds a poll's header row. The store refuses a second poll with the
    /// same id.
    pub fn insert_poll(&mut self, poll: &Poll) -> (done: Result<(), StorageError>)
        ensures
            old(self)@.poll(poll.id@).is_some() ==> done == Err::<(), StorageError>(
                StorageError::Conflict,
            ) && final(self)@ == old(self)@,
            old(self)@.poll(poll.id@).is_none() ==> done.is_ok() && final(self)@ == old(
                self,
            )@.with_poll(poll@),
            old(self)@.wf() ==> final(self)@.wf(),
    {
        let existing = self.select_poll(poll.id.as_str());
        if existing.is_some() {
            return Err(StorageError::Conflict);
        }
        let ghost before = self@;
        self.tables.polls.push(poll.clone());
        proof {
            assert(self@.polls =~= before.polls.push(poll@));
            assert(self@ == before.with_poll(poll@));
            lemma_with_poll_wf(before, poll@);
        }
        Ok(())
    }

    /// The candidates of a poll, in the order in which they were added.
    pub fn select_candidates(&self, poll_id: &str) -> (found: Vec<Candidate>)
        ensures
            views(found@) == self@.candidates_of(poll_id@),
    {
        let key: String = poll_id.to_owned();
        let ghost keep = candidate_in(poll_id@);
        let ghost pick = candidate_part();
        let ghost rows = views(self.tables.candidates@);
        let mut found: Vec<Candidate> = Vec::new();
        let mut i: usize = 0;
        assert(rows.take(0).filter(keep) =~= Seq::empty()) by {
            reveal(Seq::filter);
        }
        assert(views(found@) =~= rows.take(0).filter(keep).map_values(pick));
        while i < self.tables.candidates.len()
            invariant
                i <= self.tables.candidates.len(),
                key@ == poll_id@,
                rows == views(self.tables.candidates@),
                keep == candidate_in(poll_id@),
                pick == candidate_part(),
                views(found@) == rows.take(i as int).filter(keep).map_values(pick),
            decreases self.tables.candidates.len() - i,
        {
            let ghost so_far = views(found@);
            proof {
                lemma_filter_push(rows.take(i as int), rows[i as int], keep);
                assert(rows.take(i as int + 1) =~= rows.take(i as int).push(rows[i as int]));
            }
            if self.tables.candidates[i].poll_id == key {
                found.push(self.tables.candidates[i].candidate.clone());
                assert(views(found@) =~= so_far.push(rows[i as int].candidate));
                assert(rows.take(i as int).filter(keep).push(rows[i as int]).map_values(pick)
                    =~= rows.take(i as int).filter(keep).map_values(pick).push(
                    rows[i as int].candidate,
                ));
            }
            i += 1;
        }
        assert(rows.take(i as int) =~= rows);
        assert(self@.candidates_of(poll_id@) == rows.filter(keep).map_values(pick));
        found
    }

    /// Whether the poll has a candidate with this name.
    pub fn has_candidate_named(&self, poll_id: &str, name: &str) -> (found: bool)
        ensures
            found == self@.has_candidate_named(poll_id@, name@),
    {
        let key: String = poll_id.to_owned();
        let wanted: String = name.to_owned();
        let mut i: usize = 0;
        while i < self.tables.candidates.len()
            invariant
                i <= self.tables.candidates.len(),
                key@ == poll_id@,
                wanted@ == name@,
                forall|k: int|
                    0 <= k < i ==> !((#[trigger] self@.candidates[k]).poll_id == poll_id@
                        && self@.candidates[k].candidate.name == name@),
            decreases self.tables.candidates.len() - i,
        {
            if self.tables.candidates[i].poll_id == key && self.tables.candidates[i].candidate.name
                == wanted {
                assert(self@.candidates[i as int].poll_id == poll_id@);
                return true;
            }
            i += 1;
        }
        false
    }

    /// Adds a candidate to a poll and gives it the next id. The store refuses
    /// a candidate of a poll that it does not hold, a second candidate of the
    /// same name in one poll, and any candidate once its ids have run out.
    pub fn insert_candidate(
        &mut self,
        poll_id: &str,
        name: &str,
        description: &Option<String>,
    ) -> (done: Result<(), StorageError>)
        ensures
            done == insert_candidate_verdict(old(self)@, poll_id@, name@),
            done.is_ok() ==> final(self)@ == old(self)@.with_candidate(
                poll_id@,
                name@,
                text_of(*description),
            ),
            done.is_err() ==> final(self)@ == old(self)@,
            old(self)@.wf() ==> final(self)@.wf(),
    {
        if self.select_poll(poll_id).is_none() {
            return Err(StorageError::MissingPoll);
        }
        if self.has_candidate_named(poll_id, name) {
            return Err(StorageError::Conflict);
        }
        if self.tables.next_candidate_id == i32::MAX {
            return Err(StorageError::IdsExhausted);
        }
        let ghost before = self@;
        let entry = CandidateEntry {
            poll_id: poll_id.to_owned(),
            candidate: Candidate {
                id: self.tables.next_candidate_id,
                name: name.to_owned(),
                description: description.clone(),
            },
        };
        self.tables.candidates.push(entry);
        self.tables.next_candidate_id = self.tables.next_candidate_id + 1;
        proof {
            assert(self@.candidates =~= before.with_candidate(
                poll_id@,
                name@,
                text_of(*description),
            ).candidates);
            assert(self@ == before.with_candidate(poll_id@, name@, text_of(*description)));
            lemma_with_candidate_wf(before, poll_id@, name@, text_of(*description));
        }
        Ok(())
    }

    /// Adds the candidates to a poll, in their order, each as
    /// [`Self::insert_candidate`] does. Stops at the first one that the store
    /// refuses: those before it have been added then.
    pub fn insert_candidates(
        &mut self,
        poll_id: &str,
        candidates: &Vec<crate::model::Candidate>,
    ) -> (done: Result<(), StorageError>)
        ensures
            final(self)@ == with_candidates(
                old(self)@,
                poll_id@,
                views(candidates@),
                accepted_count(old(self)@, poll_id@, names_of(views(candidates@))),
            ),
            match done {
                Ok(()) => accepted_count(old(self)@, poll_id@, names_of(views(candidates@)))
                    == candidates.len(),
                Err(e) => accepted_count(old(self)@, poll_id@, names_of(views(candidates@)))
                    < candidates.len() && e == candidate_refusal(
                    old(self)@,
                    poll_id@,
                    names_of(views(candidates@)),
                    accepted_count(old(self)@, poll_id@, names_of(views(candidates@))),
                ),
            },
            old(self)@.wf() ==> final(self)@.wf(),
    {
        let ghost before = self@;
        let ghost given = views(candidates@);
        let ghost names = names_of(given);
        let ghost refused = candidate_refused(before, poll_id@, names);
        let mut i: usize = 0;
        assert(self@ == with_candidates(before, poll_id@, given, 0)) by {
            assert(before.candidates + candidate_rows(before.next_candidate_id, poll_id@, given, 0)
                =~= before.candidates);
        }
        while i < candidates.len()
            invariant
                i <= candidates.len(),
                before == old(self)@,
                given == views(candidates@),
                names == names_of(given),
                refused == candidate_refused(before, poll_id@, names),
                forall|k: int| 0 <= k < i ==> !#[trigger] refused(k),
                before.next_candidate_id + i <= i32::MAX,
                self@ == with_candidates(before, poll_id@, given, i as int),
                before.wf() ==> self@.wf(),
            decreases candidates.len() - i,
        {
            let candidate = &candidates[i];
            proof {
                assert(candidate@ == given[i as int]);
                assert(names[i as int] == candidate.name@);
                lemma_next_candidate_verdict(before, poll_id@, given, i as int);
            }
            match self.insert_candidate(poll_id, candidate.name.as_str(), &candidate.description) {
                Err(e) => {
                    proof {
                        assert(refused(i as int));
                        lemma_first_index_is(names.len() as int, refused, i as int);
                    }
                    return Err(e);
                },
                Ok(()) => {
                    assert(!refused(i as int));
                },
            }
            i += 1;
        }
        proof {
            lemma_first_index_is(names.len() as int, refused, names.len() as int);
        }
        Ok(())
    }

    /// The ballot with this id in this poll, as the transaction sees it.
    pub fn select_ballot(&self, poll_id: &str, ballot_id: &str) -> (found: Option<Ballot>)
        ensures
            found.is_some() == self@.ballot(poll_id@, ballot_id@).is_some(),
            found.is_some() ==> found.unwrap()@ == self@.ballot(poll_id@, ballot_id@).unwrap(),
    {
        let key: String = poll_id.to_owned();
        let wanted: String = ballot_id.to_owned();
        let ghost keep = ballot_with_id(poll_id@, ballot_id@);
        let ghost rows = views(self.tables.ballots@);
        let mut found: Option<Ballot> = None;
        let mut i: usize = 0;
        while i < self.tables.ballots.len()
            invariant
                i <= self.tables.ballots.len(),
                key@ == poll_id@,
                wanted@ == ballot_id@,
                rows == views(self.tables.ballots@),
                keep == ballot_with_id(poll_id@, ballot_id@),
                found.is_some() == last_match(rows.take(i as int), keep).is_some(),
                found.is_some() ==> found.unwrap()@ == last_match(
                    rows.take(i as int),
                    keep,
                ).unwrap().ballot,
            decreases self.tables.ballots.len() - i,
        {
            proof {
                lemma_filter_push(rows.take(i as int), rows[i as int], keep);
                assert(rows.take(i as int + 1) =~= rows.take(i as int).push(rows[i as int]));
            }
            if self.tables.ballots[i].poll_id == key && self.tables.ballots[i].ballot.id == wanted {
                found = Some(self.tables.ballots[i].ballot.clone());
            }
            i += 1;
        }
        assert(rows.take(i as int) =~= rows);
        found
    }

    /// The ballots of a poll, in the order in which they were first cast.
    pub fn select_ballots(&self, poll_id: &str) -> (found: Vec<Ballot>)
        ensures
            views(found@) == self@.ballots_of(poll_id@),
    {
        let key: String = poll_id.to_owned();
        let ghost keep = ballot_in(poll_id@);
        let ghost pick = ballot_part();
        let ghost rows = views(self.tables.ballots@);
        let mut found: Vec<Ballot> = Vec::new();
        let mut i: usize = 0;
        assert(rows.take(0).filter(keep) =~= Seq::empty()) by {
            reveal(Seq::filter);
        }
        assert(views(found@) =~= rows.take(0).filter(keep).map_values(pick));
        while i < self.tables.ballots.len()
            invariant
                i <= self.tables.ballots.len(),
                key@ == poll_id@,
                rows == views(self.tables.ballots@),
                keep == ballot_in(poll_id@),
                pick == ballot_part(),
                views(found@) == rows.take(i as int).filter(keep).map_values(pick),
            decreases self.tables.ballots.len() - i,
        {
            let ghost so_far = views(found@);
            proof {
                lemma_filter_push(rows.take(i as int), rows[i as int], keep);
                assert(rows.take(i as int + 1) =~= rows.take(i as int).push(rows[i as int]));
            }
            if self.tables.ballots[i].poll_id == key {
                found.push(self.tables.ballots[i].ballot.clone());
                assert(views(found@) =~= so_far.push(rows[i as int].ballot));
                assert(rows.take(i as int).filter(keep).push(rows[i as int]).map_values(pick)
                    =~= rows.take(i as int).filter(keep).map_values(pick).push(
                    rows[i as int].ballot,
                ));
            }
            i += 1;
        }
        assert(rows.take(i as int) =~= rows);
        assert(self@.ballots_of(poll_id@) == rows.filter(keep).map_values(pick));
        found
    }

    /// Adds a ballot row to a poll. The store refuses a ballot of a poll that
    /// it does not hold, and a second ballot with the same id in one poll.
    pub fn insert_ballot(
        &mut self,
        poll_id: &str,
        ballot: &Ballot,
    ) -> (done: Result<(), StorageError>)
        ensures
            done == insert_ballot_verdict(old(self)@, poll_id@, ballot.id@),
            done.is_ok() ==> final(self)@ == old(self)@.with_ballot(poll_id@, ballot@),
            done.is_err() ==> final(self)@ == old(self)@,
            old(self)@.wf() ==> final(self)@.wf(),
    {
        if self.select_poll(poll_id).is_none() {
            return Err(StorageError::MissingPoll);
        }
        if self.select_ballot(poll_id, ballot.id.as_str()).is_some() {
            return Err(StorageError::Conflict);
        }
        let ghost before = self@;
        self.tables.ballots.push(BallotEntry { poll_id: poll_id.to_owned(), ballot: ballot.clone() });
        proof {
            assert(self@.ballots =~= before.with_ballot(poll_id@, ballot@).ballots);
            assert(self@ == before.with_ballot(poll_id@, ballot@));
            lemma_with_ballot_wf(before, poll_id@, ballot@);
        }
        Ok(())
    }

    /// Gives the timestamp of `ballot` to the ballot rows of the poll that
    /// have its id and its name.
    pub fn update_ballot(&mut self, poll_id: &str, ballot: &Ballot)
        ensures
            final(self)@ == old(self)@.with_ballot_touched(poll_id@, ballot@),
            old(self)@.wf() ==> final(self)@.wf(),
    {
        let key: String = poll_id.to_owned();
        let ghost before = self@;
        let ghost after = before.with_ballot_touched(poll_id@, ballot@);
        let mut updated: Vec<BallotEntry> = Vec::new();
        let mut i: usize = 0;
        while i < self.tables.ballots.len()
            invariant
                i <= self.tables.ballots.len(),
                key@ == poll_id@,
                self@ == before,
                after == before.with_ballot_touched(poll_id@, ballot@),
                updated.len() == i,
                forall|k: int| 0 <= k < i ==> (#[trigger] updated[k])@ == after.ballots[k],
            decreases self.tables.ballots.len() - i,
        {
            let entry = &self.tables.ballots[i];
            assert(entry@ == before.ballots[i as int]);
            if entry.poll_id == key && entry.ballot.id == ballot.id && entry.ballot.name
                == ballot.name {
                updated.push(
                    BallotEntry {
                        poll_id: entry.poll_id.clone(),
                        ballot: Ballot {
                            id: entry.ballot.id.clone(),
                            name: entry.ballot.name.clone(),
                            timestamp: ballot.timestamp,
                            owner_id: entry.ballot.owner_id.clone(),
                        },
                    },
                );
            } else {
                updated.push(entry.clone());
            }
            i += 1;
        }
        self.tables.ballots = updated;
        proof {
            assert(self@.ballots =~= after.ballots);
            assert(self@ == after);
            lemma_with_ballot_touched_wf(before, poll_id@, ballot@);
        }
    }

    /// The ranking rows of a poll, in the order in which they were written.
    pub fn select_rankings(&self, poll_id: &str) -> (found: Vec<Ranking>)
        ensures
            views(found@) == self@.rankings_of(poll_id@),
    {
        let key: String = poll_id.to_owned();
        let ghost keep = ranking_in(poll_id@);
        let ghost rows = views(self.tables.rankings@);
        let mut found: Vec<Ranking> = Vec::new();
        let mut i: usize = 0;
        assert(views(found@) =~= rows.take(0).filter(keep)) by {
            reveal(Seq::filter);
        }
        while i < self.tables.rankings.len()
            invariant
                i <= self.tables.rankings.len(),
                key@ == poll_id@,
                rows == views(self.tables.rankings@),
                keep == ranking_in(poll_id@),
                views(found@) == rows.take(i as int).filter(keep),
            decreases self.tables.rankings.len() - i,
        {
            let ghost so_far = views(found@);
            proof {
                lemma_filter_push(rows.take(i as int), rows[i as int], keep);
                assert(rows.take(i as int + 1) =~= rows.take(i as int).push(rows[i as int]));
            }
            if self.tables.rankings[i].poll_id == key {
                found.push(self.tables.rankings[i].clone());
                assert(views(found@) =~= so_far.push(rows[i as int]));
            }
            i += 1;
        }
        assert(rows.take(i as int) =~= rows);
        found
    }

    /// Deletes all ranking rows of one ballot.
    pub fn delete_rankings(&mut self, poll_id: &str, ballot_id: &str)
        ensures
            final(self)@ == old(self)@.without_rankings(poll_id@, ballot_id@),
            old(self)@.wf() ==> final(self)@.wf(),
    {
        let key: String = poll_id.to_owned();
        let wanted: String = ballot_id.to_owned();
        let ghost before = self@;
        let ghost keep = ranking_not_of(poll_id@, ballot_id@);
        let ghost rows = views(self.tables.rankings@);
        let mut kept: Vec<Ranking> = Vec::new();
        let mut i: usize = 0;
        assert(views(kept@) =~= rows.take(0).filter(keep)) by {
            reveal(Seq::filter);
        }
        while i < self.tables.rankings.len()
            invariant
                i <= self.tables.rankings.len(),
                key@ == poll_id@,
                wanted@ == ballot_id@,
                self@ == before,
                rows == views(self.tables.rankings@),
                keep == ranking_not_of(poll_id@, ballot_id@),
                views(kept@) == rows.take(i as int).filter(keep),
            decreases self.tables.rankings.len() - i,
        {
            let ghost so_far = views(kept@);
            proof {
                lemma_filter_push(rows.take(i as int), rows[i as int], keep);
                assert(rows.take(i as int + 1) =~= rows.take(i as int).push(rows[i as int]));
            }
            let row = &self.tables.rankings[i];
            if !(row.poll_id == key && row.ballot_id == wanted) {
                kept.push(row.clone());
                assert(views(kept@) =~= so_far.push(rows[i as int]));
            }
            i += 1;
        }
        assert(rows.take(i as int) =~= rows);
        self.tables.rankings = kept;
        assert(self@ == before.without_rankings(poll_id@, ballot_id@));
    }

    /// Adds one ranking row to a poll: the row of `ranking`, with `poll_id`
    /// as its poll.
    pub fn insert_ranking(&mut self, poll_id: &str, ranking: &Ranking)
        ensures
            final(self)@ == old(self)@.with_ranking(
                RankingView { poll_id: poll_id@, ..ranking@ },
            ),
            old(self)@.wf() ==> final(self)@.wf(),
    {
        let ghost before = self@;
        self.tables.rankings.push(
            Ranking {
                ballot_id: ranking.ballot_id.clone(),
                poll_id: poll_id.to_owned(),
                candidate_id: ranking.candidate_id,
                ranking: ranking.ranking,
            },
        );
        assert(self@.rankings =~= before.rankings.push(
            RankingView { poll_id: poll_id@, ..ranking@ },
        ));
    }

    /// Makes the transaction's writes the store's contents. The transaction
    /// keeps the rules of [`State::wf`], as every transaction does that was
    /// opened on a store and written to by these methods.
    pub fn commit(self, db: &mut PickyDb)
        requires
            self@.wf(),
        ensures
            final(db)@ == self@,
    {
        db.install(self.tables);
    }
}

} // verus!
