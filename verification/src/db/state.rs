//! The mathematical model of the store and its consistency rules.

use vstd::prelude::*;

use crate::util::{first_index, occurs_before};
use crate::db::{
    BallotEntryView, BallotView, CandidateEntryView, CandidateView, PollView, RankingView,
    StorageError,
};

verus! {

/// What the store holds: four relations in the order in which their rows
/// were written, and the next candidate id that it will give.
pub struct State {
    pub polls: Seq<PollView>,
    pub candidates: Seq<CandidateEntryView>,
    pub ballots: Seq<BallotEntryView>,
    pub rankings: Seq<RankingView>,
    pub next_candidate_id: i32,
}

/// The last row that `keep` accepts, if there is one.
pub open spec fn last_match<A>(rows: Seq<A>, keep: spec_fn(A) -> bool) -> Option<A> {
    let kept = rows.filter(keep);
    if kept.len() == 0 {
        None
    } else {
        Some(kept.last())
    }
}

/// Filtering a sequence that ends in `x` filters what stands before `x` and
/// then keeps `x` or not.
pub proof fn lemma_filter_push<A>(rows: Seq<A>, x: A, keep: spec_fn(A) -> bool)
    ensures
        rows.push(x).filter(keep) == if keep(x) {
            rows.filter(keep).push(x)
        } else {
            rows.filter(keep)
        },
{
    reveal(Seq::filter);
    assert(rows.push(x).drop_last() =~= rows);
}

/// The filter keeps a row of the sequence exactly when `keep` accepts it.
pub proof fn lemma_filter_some<A>(rows: Seq<A>, keep: spec_fn(A) -> bool)
    ensures
        rows.filter(keep).len() > 0 <==> exists|i: int| 0 <= i < rows.len() && keep(#[trigger] rows[i]),
        forall|k: int| 0 <= k < rows.filter(keep).len() ==> keep(#[trigger] rows.filter(keep)[k]),
        forall|k: int|
            0 <= k < rows.filter(keep).len() ==> rows.contains(#[trigger] rows.filter(keep)[k]),
    decreases rows.len(),
{
    reveal(Seq::filter);
    if rows.len() > 0 {
        let front = rows.drop_last();
        lemma_filter_some(front, keep);
        if front.filter(keep).len() > 0 {
            let i = choose|i: int| 0 <= i < front.len() && keep(#[trigger] front[i]);
            assert(keep(rows[i]));
        }
        if exists|i: int| 0 <= i < rows.len() && keep(#[trigger] rows[i]) {
            let i = choose|i: int| 0 <= i < rows.len() && keep(#[trigger] rows[i]);
            if i < rows.len() - 1 {
                assert(keep(front[i]));
            }
        }
        assert forall|k: int| 0 <= k < rows.filter(keep).len() implies rows.contains(
            #[trigger] rows.filter(keep)[k],
        ) by {
            if k < front.filter(keep).len() {
                let row = front.filter(keep)[k];
                assert(front.contains(row));
                let i = choose|i: int| 0 <= i < front.len() && front[i] == row;
                assert(rows[i] == row);
            } else {
                assert(rows[rows.len() - 1] == rows.filter(keep)[k]);
            }
        }
    }
}

/// The test that a poll passes when it has this id.
pub open spec fn poll_with_id(id: Seq<char>) -> spec_fn(PollView) -> bool {
    |p: PollView| p.id == id
}

/// The test that a candidate passes when it belongs to this poll.
pub open spec fn candidate_in(poll_id: Seq<char>) -> spec_fn(CandidateEntryView) -> bool {
    |e: CandidateEntryView| e.poll_id == poll_id
}

/// The candidate of an entry.
pub open spec fn candidate_part() -> spec_fn(CandidateEntryView) -> CandidateView {
    |e: CandidateEntryView| e.candidate
}

/// The test that a ballot passes when it belongs to this poll.
pub open spec fn ballot_in(poll_id: Seq<char>) -> spec_fn(BallotEntryView) -> bool {
    |e: BallotEntryView| e.poll_id == poll_id
}

/// The ballot of an entry.
pub open spec fn ballot_part() -> spec_fn(BallotEntryView) -> BallotView {
    |e: BallotEntryView| e.ballot
}

/// The test that a ballot passes when it belongs to this poll under this id.
pub open spec fn ballot_with_id(
    poll_id: Seq<char>,
    ballot_id: Seq<char>,
) -> spec_fn(BallotEntryView) -> bool {
    |e: BallotEntryView| e.poll_id == poll_id && e.ballot.id == ballot_id
}

/// The test that a ranking row passes when it belongs to this poll.
pub open spec fn ranking_in(poll_id: Seq<char>) -> spec_fn(RankingView) -> bool {
    |r: RankingView| r.poll_id == poll_id
}

/// The test that a ranking row passes when it belongs to this ballot of
/// this poll.
pub open spec fn ranking_of(
    poll_id: Seq<char>,
    ballot_id: Seq<char>,
) -> spec_fn(RankingView) -> bool {
    |r: RankingView| r.poll_id == poll_id && r.ballot_id == ballot_id
}

/// The test that a ranking row passes when it does not belong to this
/// ballot of this poll.
pub open spec fn ranking_not_of(
    poll_id: Seq<char>,
    ballot_id: Seq<char>,
) -> spec_fn(RankingView) -> bool {
    |r: RankingView| !(r.poll_id == poll_id && r.ballot_id == ballot_id)
}

/// The change that gives the ballot rows of the poll that have the id and
/// the name of `ballot` its timestamp, and leaves the others as they are.
pub open spec fn touch(
    poll_id: Seq<char>,
    ballot: BallotView,
) -> spec_fn(BallotEntryView) -> BallotEntryView {
    |e: BallotEntryView|
        if e.poll_id == poll_id && e.ballot.id == ballot.id && e.ballot.name == ballot.name {
            BallotEntryView {
                poll_id: e.poll_id,
                ballot: BallotView { timestamp: ballot.timestamp, ..e.ballot },
            }
        } else {
            e
        }
}

impl State {
    /// The store that holds nothing yet.
    pub open spec fn empty() -> State {
        State {
            polls: Seq::empty(),
            candidates: Seq::empty(),
            ballots: Seq::empty(),
            rankings: Seq::empty(),
            next_candidate_id: 1,
        }
    }

    /// The poll with this id, if the store holds one.
    pub open spec fn poll(self, id: Seq<char>) -> Option<PollView> {
        last_match(self.polls, poll_with_id(id))
    }

    /// The candidates of a poll, in the order in which they were added.
    pub open spec fn candidates_of(self, poll_id: Seq<char>) -> Seq<CandidateView> {
        self.candidates.filter(candidate_in(poll_id)).map_values(candidate_part())
    }

    /// The ballots of a poll, in the order in which they were first cast.
    pub open spec fn ballots_of(self, poll_id: Seq<char>) -> Seq<BallotView> {
        self.ballots.filter(ballot_in(poll_id)).map_values(ballot_part())
    }

    /// The ballot with this id in this poll, if the store holds one.
    pub open spec fn ballot(self, poll_id: Seq<char>, ballot_id: Seq<char>) -> Option<BallotView> {
        match last_match(self.ballots, ballot_with_id(poll_id, ballot_id)) {
            Some(e) => Some(e.ballot),
            None => None,
        }
    }

    /// The ranking rows of a poll, in the order in which they were written.
    pub open spec fn rankings_of(self, poll_id: Seq<char>) -> Seq<RankingView> {
        self.rankings.filter(ranking_in(poll_id))
    }

    /// The ranking rows of one ballot, in the order in which they were written.
    pub open spec fn rankings_of_ballot(
        self,
        poll_id: Seq<char>,
        ballot_id: Seq<char>,
    ) -> Seq<RankingView> {
        self.rankings.filter(ranking_of(poll_id, ballot_id))
    }

    /// Whether a candidate with this name is registered for the poll.
    pub open spec fn has_candidate_named(self, poll_id: Seq<char>, name: Seq<char>) -> bool {
        exists|i: int|
            0 <= i < self.candidates.len() && (#[trigger] self.candidates[i]).poll_id == poll_id
                && self.candidates[i].candidate.name == name
    }

    /// Whether a candidate with this id is registered for the poll.
    pub open spec fn has_candidate_id(self, poll_id: Seq<char>, id: i32) -> bool {
        exists|i: int|
            0 <= i < self.candidates.len() && (#[trigger] self.candidates[i]).poll_id == poll_id
                && self.candidates[i].candidate.id == id
    }

    /// The store after a poll's header row was added.
    pub open spec fn with_poll(self, poll: PollView) -> State {
        State { polls: self.polls.push(poll), ..self }
    }

    /// The store after a candidate was added to a poll: the candidate gets
    /// the next id.
    pub open spec fn with_candidate(
        self,
        poll_id: Seq<char>,
        name: Seq<char>,
        description: Option<Seq<char>>,
    ) -> State {
        State {
            candidates: self.candidates.push(
                CandidateEntryView {
                    poll_id,
                    candidate: CandidateView { id: self.next_candidate_id, name, description },
                },
            ),
            next_candidate_id: (self.next_candidate_id + 1) as i32,
            ..self
        }
    }

    /// The store after a ballot row was added to a poll.
    pub open spec fn with_ballot(self, poll_id: Seq<char>, ballot: BallotView) -> State {
        State { ballots: self.ballots.push(BallotEntryView { poll_id, ballot }), ..self }
    }

    /// The store after the ballot rows of the poll that have the id and the
    /// name of `ballot` took its timestamp.
    pub open spec fn with_ballot_touched(self, poll_id: Seq<char>, ballot: BallotView) -> State {
        State {
            ballots: self.ballots.map_values(touch(poll_id, ballot)),
            ..self
        }
    }

    /// The store after all ranking rows of one ballot were deleted.
    pub open spec fn without_rankings(self, poll_id: Seq<char>, ballot_id: Seq<char>) -> State {
        State {
            rankings: self.rankings.filter(ranking_not_of(poll_id, ballot_id)),
            ..self
        }
    }

    /// The store after one ranking row was added.
    pub open spec fn with_ranking(self, row: RankingView) -> State {
        State { rankings: self.rankings.push(row), ..self }
    }

    /// No two polls share an id.
    pub open spec fn poll_ids_unique(self) -> bool {
        forall|i: int, j: int|
            0 <= i < j < self.polls.len() ==> (#[trigger] self.polls[i]).id != (
            #[trigger] self.polls[j]).id
    }

    /// Every candidate belongs to a poll of the store, no two candidates of
    /// one poll share a name, and no two candidates share an id.
    pub open spec fn candidates_consistent(self) -> bool {
        &&& forall|i: int|
            0 <= i < self.candidates.len() ==> self.poll(
                (#[trigger] self.candidates[i]).poll_id,
            ).is_some()
        &&& forall|i: int, j: int|
            0 <= i < j < self.candidates.len() && (#[trigger] self.candidates[i]).poll_id == (
            #[trigger] self.candidates[j]).poll_id ==> self.candidates[i].candidate.name
                != self.candidates[j].candidate.name
        &&& forall|i: int, j: int|
            0 <= i < j < self.candidates.len() ==> (#[trigger] self.candidates[i]).candidate.id != (
            #[trigger] self.candidates[j]).candidate.id
        &&& forall|i: int|
            0 <= i < self.candidates.len() ==> 1 <= (#[trigger] self.candidates[i]).candidate.id
                < self.next_candidate_id
        &&& 1 <= self.next_candidate_id
    }

    /// Every ballot belongs to a poll of the store, and a poll holds at most
    /// one ballot per ballot id.
    pub open spec fn ballots_consistent(self) -> bool {
        &&& forall|i: int|
            0 <= i < self.ballots.len() ==> self.poll((#[trigger] self.ballots[i]).poll_id).is_some()
        &&& forall|i: int, j: int|
            0 <= i < j < self.ballots.len() && (#[trigger] self.ballots[i]).poll_id == (
            #[trigger] self.ballots[j]).poll_id ==> self.ballots[i].ballot.id
                != self.ballots[j].ballot.id
    }

    /// The rules that every write to polls, candidates and ballots keeps.
    pub open spec fn wf(self) -> bool {
        &&& self.poll_ids_unique()
        &&& self.candidates_consistent()
        &&& self.ballots_consistent()
    }

    /// The rules on ranking rows: each belongs to a ballot of its poll and
    /// names a candidate of its poll, and the rows of one ballot, in the order
    /// in which they were written, hold the positions 0, 1, 2, ... and name
    /// no candidate twice.
    pub open spec fn rankings_consistent(self) -> bool {
        &&& forall|k: int|
            0 <= k < self.rankings.len() ==> self.ballot(
                (#[trigger] self.rankings[k]).poll_id,
                self.rankings[k].ballot_id,
            ).is_some()
        &&& forall|k: int|
            0 <= k < self.rankings.len() ==> self.has_candidate_id(
                (#[trigger] self.rankings[k]).poll_id,
                self.rankings[k].candidate_id,
            )
        &&& forall|poll_id: Seq<char>, ballot_id: Seq<char>|
            positions_in_order(#[trigger] self.rankings_of_ballot(poll_id, ballot_id))
    }
}

/// Whether the rows hold the positions 0, 1, 2, ... in this order and name no
/// candidate twice.
pub open spec fn positions_in_order(rows: Seq<RankingView>) -> bool {
    &&& forall|k: int| 0 <= k < rows.len() ==> (#[trigger] rows[k]).ranking == k
    &&& forall|i: int, j: int|
        0 <= i < j < rows.len() ==> (#[trigger] rows[i]).candidate_id != (
        #[trigger] rows[j]).candidate_id
}

/// What the store answers to the insertion of a candidate: it refuses one
/// for a poll that it does not hold, then one whose name the poll already
/// has, then any once the ids have run out.
pub open spec fn insert_candidate_verdict(
    state: State,
    poll_id: Seq<char>,
    name: Seq<char>,
) -> Result<(), StorageError> {
    if state.poll(poll_id).is_none() {
        Err(StorageError::MissingPoll)
    } else if state.has_candidate_named(poll_id, name) {
        Err(StorageError::Conflict)
    } else if state.next_candidate_id == i32::MAX {
        Err(StorageError::IdsExhausted)
    } else {
        Ok(())
    }
}

/// A poll that the store holds is still held after any poll was added.
pub proof fn lemma_poll_kept(state: State, poll: PollView, id: Seq<char>)
    requires
        state.poll(id).is_some(),
    ensures
        state.with_poll(poll).poll(id).is_some(),
{
    lemma_filter_push(state.polls, poll, poll_with_id(id));
}

/// Adding a poll whose id is new keeps the store consistent.
pub proof fn lemma_with_poll_wf(state: State, poll: PollView)
    requires
        state.poll(poll.id).is_none(),
    ensures
        state.wf() ==> state.with_poll(poll).wf(),
{
    if state.wf() {
        let next = state.with_poll(poll);
        lemma_filter_some(state.polls, poll_with_id(poll.id));
        assert forall|i: int, j: int| 0 <= i < j < next.polls.len() implies (
        #[trigger] next.polls[i]).id != (#[trigger] next.polls[j]).id by {
            if j == state.polls.len() {
                assert(state.polls[i].id != poll.id);
            }
        }
        assert forall|i: int| 0 <= i < next.candidates.len() implies next.poll(
            (#[trigger] next.candidates[i]).poll_id,
        ).is_some() by {
            lemma_poll_kept(state, poll, state.candidates[i].poll_id);
        }
        assert forall|i: int| 0 <= i < next.ballots.len() implies next.poll(
            (#[trigger] next.ballots[i]).poll_id,
        ).is_some() by {
            lemma_poll_kept(state, poll, state.ballots[i].poll_id);
        }
    }
}

/// Adding a candidate that the store accepts keeps the store consistent.
pub proof fn lemma_with_candidate_wf(
    state: State,
    poll_id: Seq<char>,
    name: Seq<char>,
    description: Option<Seq<char>>,
)
    requires
        insert_candidate_verdict(state, poll_id, name).is_ok(),
    ensures
        state.wf() ==> state.with_candidate(poll_id, name, description).wf(),
{
    if state.wf() {
        let next = state.with_candidate(poll_id, name, description);
        let n = state.candidates.len() as int;
        assert forall|i: int, j: int|
            0 <= i < j < next.candidates.len() && (#[trigger] next.candidates[i]).poll_id == (
            #[trigger] next.candidates[j]).poll_id implies next.candidates[i].candidate.name
            != next.candidates[j].candidate.name by {
            if j == n {
                assert(state.candidates[i].poll_id == poll_id);
            }
        }
        assert forall|i: int, j: int| 0 <= i < j < next.candidates.len() implies (
        #[trigger] next.candidates[i]).candidate.id != (
        #[trigger] next.candidates[j]).candidate.id by {
            if j == n {
                assert(state.candidates[i].candidate.id < state.next_candidate_id);
            }
        }
        assert forall|i: int| 0 <= i < next.candidates.len() implies next.poll(
            (#[trigger] next.candidates[i]).poll_id,
        ).is_some() by {
            if i < n {
                assert(state.poll(state.candidates[i].poll_id).is_some());
            }
        }
        assert forall|i: int| 0 <= i < next.candidates.len() implies 1 <= (
        #[trigger] next.candidates[i]).candidate.id < next.next_candidate_id by {
            if i < n {
                assert(1 <= state.candidates[i].candidate.id < state.next_candidate_id);
            }
        }
        assert forall|i: int| 0 <= i < next.ballots.len() implies next.poll(
            (#[trigger] next.ballots[i]).poll_id,
        ).is_some() by {
            assert(state.poll(state.ballots[i].poll_id).is_some());
        }
    }
}

/// What the store answers to the insertion of a ballot: it refuses one for a
/// poll that it does not hold, then one whose id the poll already has.
pub open spec fn insert_ballot_verdict(
    state: State,
    poll_id: Seq<char>,
    ballot_id: Seq<char>,
) -> Result<(), StorageError> {
    if state.poll(poll_id).is_none() {
        Err(StorageError::MissingPoll)
    } else if state.ballot(poll_id, ballot_id).is_some() {
        Err(StorageError::Conflict)
    } else {
        Ok(())
    }
}

/// Adding a ballot that the store accepts keeps the store consistent.
pub proof fn lemma_with_ballot_wf(state: State, poll_id: Seq<char>, ballot: BallotView)
    requires
        insert_ballot_verdict(state, poll_id, ballot.id).is_ok(),
    ensures
        state.wf() ==> state.with_ballot(poll_id, ballot).wf(),
{
    if state.wf() {
        let next = state.with_ballot(poll_id, ballot);
        let n = state.ballots.len() as int;
        lemma_filter_some(state.ballots, ballot_with_id(poll_id, ballot.id));
        assert forall|i: int, j: int|
            0 <= i < j < next.ballots.len() && (#[trigger] next.ballots[i]).poll_id == (
            #[trigger] next.ballots[j]).poll_id implies next.ballots[i].ballot.id
            != next.ballots[j].ballot.id by {
            if j == n {
                assert(state.ballots[i].poll_id == poll_id);
            }
        }
        assert forall|i: int| 0 <= i < next.ballots.len() implies next.poll(
            (#[trigger] next.ballots[i]).poll_id,
        ).is_some() by {
            if i < n {
                assert(state.poll(state.ballots[i].poll_id).is_some());
            }
        }
        assert forall|i: int| 0 <= i < next.candidates.len() implies next.poll(
            (#[trigger] next.candidates[i]).poll_id,
        ).is_some() by {
            assert(state.poll(state.candidates[i].poll_id).is_some());
        }
    }
}

/// A new timestamp on some ballots keeps the store consistent.
pub proof fn lemma_with_ballot_touched_wf(state: State, poll_id: Seq<char>, ballot: BallotView)
    ensures
        state.wf() ==> state.with_ballot_touched(poll_id, ballot).wf(),
{
    if state.wf() {
        let next = state.with_ballot_touched(poll_id, ballot);
        assert forall|i: int| 0 <= i < next.ballots.len() implies (
        #[trigger] next.ballots[i]).poll_id == state.ballots[i].poll_id && next.ballots[i].ballot.id
            == state.ballots[i].ballot.id by {}
        assert forall|i: int| 0 <= i < next.ballots.len() implies next.poll(
            (#[trigger] next.ballots[i]).poll_id,
        ).is_some() by {
            assert(state.poll(state.ballots[i].poll_id).is_some());
        }
        assert forall|i: int| 0 <= i < next.candidates.len() implies next.poll(
            (#[trigger] next.candidates[i]).poll_id,
        ).is_some() by {
            assert(state.poll(state.candidates[i].poll_id).is_some());
        }
    }
}

/// A filter keeps a sequence whole when it accepts every row.
pub proof fn lemma_filter_all<A>(rows: Seq<A>, keep: spec_fn(A) -> bool)
    requires
        forall|i: int| 0 <= i < rows.len() ==> keep(#[trigger] rows[i]),
    ensures
        rows.filter(keep) == rows,
    decreases rows.len(),
{
    if rows.len() == 0 {
        reveal(Seq::filter);
    } else {
        let front = rows.drop_last();
        assert forall|i: int| 0 <= i < front.len() implies keep(#[trigger] front[i]) by {
            assert(front[i] == rows[i]);
        }
        lemma_filter_all(front, keep);
        lemma_filter_push(front, rows.last(), keep);
        assert(front.push(rows.last()) =~= rows);
    }
}

/// A filter keeps nothing when it accepts no row.
pub proof fn lemma_filter_none<A>(rows: Seq<A>, keep: spec_fn(A) -> bool)
    requires
        forall|i: int| 0 <= i < rows.len() ==> !keep(#[trigger] rows[i]),
    ensures
        rows.filter(keep) == Seq::<A>::empty(),
    decreases rows.len(),
{
    if rows.len() == 0 {
        reveal(Seq::filter);
        assert(rows =~= Seq::<A>::empty());
    } else {
        let front = rows.drop_last();
        assert forall|i: int| 0 <= i < front.len() implies !keep(#[trigger] front[i]) by {
            assert(front[i] == rows[i]);
        }
        lemma_filter_none(front, keep);
        lemma_filter_push(front, rows.last(), keep);
        assert(front.push(rows.last()) =~= rows);
    }
}

/// Filtering twice is filtering once by both tests.
pub proof fn lemma_filter_filter<A>(
    rows: Seq<A>,
    first: spec_fn(A) -> bool,
    second: spec_fn(A) -> bool,
    both: spec_fn(A) -> bool,
)
    requires
        forall|x: A| #[trigger] both(x) == (first(x) && second(x)),
    ensures
        rows.filter(first).filter(second) == rows.filter(both),
    decreases rows.len(),
{
    if rows.len() == 0 {
        reveal(Seq::filter);
    } else {
        let front = rows.drop_last();
        let x = rows.last();
        lemma_filter_filter(front, first, second, both);
        lemma_filter_push(front, x, first);
        lemma_filter_push(front, x, both);
        lemma_filter_push(front.filter(first), x, second);
        assert(front.push(x) =~= rows);
    }
}

/// A change of the rows that no test result depends on can be made before
/// or after filtering.
pub proof fn lemma_filter_map<A>(rows: Seq<A>, keep: spec_fn(A) -> bool, change: spec_fn(A) -> A)
    requires
        forall|x: A| keep(#[trigger] change(x)) == keep(x),
    ensures
        rows.map_values(change).filter(keep) == rows.filter(keep).map_values(change),
    decreases rows.len(),
{
    if rows.len() == 0 {
        reveal(Seq::filter);
        assert(rows.map_values(change) =~= rows);
        assert(rows.filter(keep).map_values(change) =~= rows.filter(keep));
    } else {
        let front = rows.drop_last();
        let x = rows.last();
        lemma_filter_map(front, keep, change);
        lemma_filter_push(front, x, keep);
        lemma_filter_push(front.map_values(change), change(x), keep);
        assert(front.push(x) =~= rows);
        assert(rows.map_values(change) =~= front.map_values(change).push(change(x)));
        if keep(x) {
            assert(front.filter(keep).push(x).map_values(change) =~= front.filter(keep).map_values(
                change,
            ).push(change(x)));
        }
    }
}

/// Filtering two sequences joined is joining what the filter keeps of each.
pub proof fn lemma_filter_add<A>(left: Seq<A>, right: Seq<A>, keep: spec_fn(A) -> bool)
    ensures
        (left + right).filter(keep) == left.filter(keep) + right.filter(keep),
    decreases right.len(),
{
    if right.len() == 0 {
        reveal(Seq::filter);
        assert(left + right =~= left);
        assert(left.filter(keep) + right.filter(keep) =~= left.filter(keep));
    } else {
        let front = right.drop_last();
        let x = right.last();
        lemma_filter_add(left, front, keep);
        lemma_filter_push(front, x, keep);
        lemma_filter_push(left + front, x, keep);
        assert(front.push(x) =~= right);
        assert((left + front).push(x) =~= left + right);
        if keep(x) {
            assert((left.filter(keep) + front.filter(keep)).push(x) =~= left.filter(keep)
                + front.filter(keep).push(x));
        }
    }
}

/// The names of the candidates, in their order.
pub open spec fn names_of(candidates: Seq<crate::model::CandidateView>) -> Seq<Seq<char>> {
    Seq::new(candidates.len(), |i: int| candidates[i].name)
}

/// The rows of the first `count` candidates that are added to a poll: they
/// get the next ids, one after the other.
pub open spec fn candidate_rows(
    first_id: i32,
    poll_id: Seq<char>,
    candidates: Seq<crate::model::CandidateView>,
    count: int,
) -> Seq<CandidateEntryView> {
    Seq::new(
        count as nat,
        |i: int|
            CandidateEntryView {
                poll_id,
                candidate: CandidateView {
                    id: (first_id + i) as i32,
                    name: candidates[i].name,
                    description: candidates[i].description,
                },
            },
    )
}

/// The store after the first `count` of the candidates were added to a poll.
pub open spec fn with_candidates(
    state: State,
    poll_id: Seq<char>,
    candidates: Seq<crate::model::CandidateView>,
    count: int,
) -> State {
    State {
        candidates: state.candidates + candidate_rows(
            state.next_candidate_id,
            poll_id,
            candidates,
            count,
        ),
        next_candidate_id: (state.next_candidate_id + count) as i32,
        ..state
    }
}

/// Whether the store accepts the candidate at index `k` once it has
/// accepted those before it: the poll is there, neither the poll nor an
/// earlier candidate of the list has the name, and an id is left.
pub open spec fn candidate_accepted(
    state: State,
    poll_id: Seq<char>,
    names: Seq<Seq<char>>,
    k: int,
) -> bool {
    &&& state.poll(poll_id).is_some()
    &&& !state.has_candidate_named(poll_id, names[k])
    &&& !occurs_before(names, k)
    &&& state.next_candidate_id + k < i32::MAX
}

/// The test that an index passes when the store refuses its candidate.
pub open spec fn candidate_refused(
    state: State,
    poll_id: Seq<char>,
    names: Seq<Seq<char>>,
) -> spec_fn(int) -> bool {
    |k: int| !candidate_accepted(state, poll_id, names, k)
}

/// How many of the candidates, from the first on, the store accepts before
/// it refuses one.
pub open spec fn accepted_count(state: State, poll_id: Seq<char>, names: Seq<Seq<char>>) -> int {
    first_index(names.len() as int, candidate_refused(state, poll_id, names))
}

/// Why the store refuses the candidate at index `k`.
pub open spec fn candidate_refusal(
    state: State,
    poll_id: Seq<char>,
    names: Seq<Seq<char>>,
    k: int,
) -> StorageError {
    if state.poll(poll_id).is_none() {
        StorageError::MissingPoll
    } else if state.has_candidate_named(poll_id, names[k]) || occurs_before(names, k) {
        StorageError::Conflict
    } else {
        StorageError::IdsExhausted
    }
}

/// What the store answers to the candidate at index `k` once it has
/// accepted those before it.
pub proof fn lemma_next_candidate_verdict(
    state: State,
    poll_id: Seq<char>,
    candidates: Seq<crate::model::CandidateView>,
    k: int,
)
    requires
        0 <= k < candidates.len(),
        state.next_candidate_id + k <= i32::MAX,
    ensures
        ({
            let reached = with_candidates(state, poll_id, candidates, k);
            let names = names_of(candidates);
            let verdict = insert_candidate_verdict(reached, poll_id, names[k]);
            &&& verdict.is_ok() == candidate_accepted(state, poll_id, names, k)
            &&& verdict.is_err() ==> verdict.unwrap_err() == candidate_refusal(
                state,
                poll_id,
                names,
                k,
            )
            &&& verdict.is_ok() ==> reached.with_candidate(
                poll_id,
                candidates[k].name,
                candidates[k].description,
            ) == with_candidates(state, poll_id, candidates, k + 1)
        }),
{
    let reached = with_candidates(state, poll_id, candidates, k);
    let names = names_of(candidates);
    let n = state.candidates.len() as int;
    assert(reached.has_candidate_named(poll_id, names[k]) == (state.has_candidate_named(
        poll_id,
        names[k],
    ) || occurs_before(names, k))) by {
        if reached.has_candidate_named(poll_id, names[k]) {
            let j = choose|j: int|
                0 <= j < reached.candidates.len() && (#[trigger] reached.candidates[j]).poll_id
                    == poll_id && reached.candidates[j].candidate.name == names[k];
            if j < n {
                assert(state.candidates[j] == reached.candidates[j]);
            } else {
                assert(names[j - n] == names[k]);
            }
        }
        if state.has_candidate_named(poll_id, names[k]) {
            let j = choose|j: int|
                0 <= j < state.candidates.len() && (#[trigger] state.candidates[j]).poll_id
                    == poll_id && state.candidates[j].candidate.name == names[k];
            assert(reached.candidates[j] == state.candidates[j]);
        }
        if occurs_before(names, k) {
            let i = choose|i: int| 0 <= i < k && #[trigger] names[i] == names[k];
            assert(reached.candidates[n + i].poll_id == poll_id);
        }
    }
    if insert_candidate_verdict(reached, poll_id, names[k]).is_ok() {
        assert(reached.with_candidate(
            poll_id,
            candidates[k].name,
            candidates[k].description,
        ).candidates =~= with_candidates(state, poll_id, candidates, k + 1).candidates);
    }
}

} // verus!
