//! What holds of the operations, one after the other: proved of the store's
//! mathematical model, over the same functions that the operations' own
//! contracts use.

use vstd::prelude::*;

use crate::db::state::{
    ballot_with_id, candidate_in, candidate_part, lemma_filter_add, lemma_filter_all,
    lemma_filter_filter, lemma_filter_map, lemma_filter_none, lemma_filter_push, lemma_filter_some,
    lemma_with_ballot_touched_wf, lemma_with_ballot_wf, positions_in_order, ranking_in,
    ranking_not_of, ranking_of, touch,
};
use crate::db::{
    BallotEntryView, BallotView, CandidateEntryView, CandidateView, PollView, RankingView, State,
};
use crate::model::Timestamp;
use crate::operations::aggregate::{
    ascending, candidate_name_of, lemma_names_of_rows_push, lemma_sort_ascending,
    lemma_sort_by_position, names_of_rows, of_ballot, ranked_names, sort_by_position, with_id,
};
use crate::operations::ballots::{ballot_write_of, put_ballot_fault, put_ballot_state};
use crate::operations::errors::PutBallotFault;
use crate::operations::polls::post_poll_state;
use crate::operations::resolver::{
    candidate_id_of, named, placeable, placed_count, ranking_row, ranking_rows, resolution_fault,
    unplaceable,
};
use crate::util::{
    all_distinct, first_duplicate_of, lemma_first_duplicate_none, lemma_first_index,
    lemma_first_index_is, occurs_before,
};

verus! {

/// No operation changes a poll that the store holds: casting a ballot and
/// adding a write-in leave the polls as they are, and creating a poll adds
/// its row behind them. So a poll's expiry is never moved.
pub proof fn polls_are_kept(
    state: State,
    poll_id: Seq<char>,
    ballot: BallotView,
    names: Seq<Seq<char>>,
    row: PollView,
    candidates: Seq<crate::model::CandidateView>,
    write_in: crate::model::CandidateView,
)
    ensures
        put_ballot_state(state, poll_id, ballot, names).polls == state.polls,
        put_ballot_state(state, poll_id, ballot, names).candidates == state.candidates,
        state.with_candidate(poll_id, write_in.name, write_in.description).polls == state.polls,
        post_poll_state(state, row, candidates).polls == state.polls.push(row),
        forall|i: int|
            0 <= i < state.polls.len() ==> #[trigger] post_poll_state(
                state,
                row,
                candidates,
            ).polls[i] == state.polls[i],
{
}

/// Where no two ballots of a poll share an id, the store holds at most one
/// ballot row per poll and ballot id.
pub proof fn lemma_one_ballot_row(
    entries: Seq<BallotEntryView>,
    poll_id: Seq<char>,
    ballot_id: Seq<char>,
)
    requires
        forall|i: int, j: int|
            0 <= i < j < entries.len() && (#[trigger] entries[i]).poll_id == (
            #[trigger] entries[j]).poll_id ==> entries[i].ballot.id != entries[j].ballot.id,
    ensures
        entries.filter(ballot_with_id(poll_id, ballot_id)).len() <= 1,
    decreases entries.len(),
{
    let keep = ballot_with_id(poll_id, ballot_id);
    if entries.len() == 0 {
        reveal(Seq::filter);
    } else {
        let front = entries.drop_last();
        let x = entries.last();
        assert forall|i: int, j: int|
            0 <= i < j < front.len() && (#[trigger] front[i]).poll_id == (
            #[trigger] front[j]).poll_id implies front[i].ballot.id != front[j].ballot.id by {
            assert(front[i] == entries[i] && front[j] == entries[j]);
        }
        lemma_one_ballot_row(front, poll_id, ballot_id);
        lemma_filter_push(front, x, keep);
        assert(front.push(x) =~= entries);
        if keep(x) && front.filter(keep).len() > 0 {
            lemma_filter_some(front, keep);
            let i = choose|i: int| 0 <= i < front.len() && keep(#[trigger] front[i]);
            assert(entries[i] == front[i]);
            assert(entries[entries.len() - 1] == x);
            assert(false);
        }
    }
}

/// Casting a ballot keeps the rules on polls, candidates and ballots.
pub proof fn put_ballot_keeps_wf(
    state: State,
    poll_id: Seq<char>,
    ballot: BallotView,
    names: Seq<Seq<char>>,
)
    requires
        state.wf(),
        put_ballot_fault(state, poll_id, ballot, names).is_none(),
    ensures
        put_ballot_state(state, poll_id, ballot, names).wf(),
{
    let once = put_ballot_state(state, poll_id, ballot, names);
    let written = if state.ballot(poll_id, ballot.id).is_none() {
        state.with_ballot(poll_id, ballot)
    } else {
        state.with_ballot_touched(poll_id, ballot)
    };
    if state.ballot(poll_id, ballot.id).is_none() {
        lemma_with_ballot_wf(state, poll_id, ballot);
    } else {
        lemma_with_ballot_touched_wf(state, poll_id, ballot);
    }
    assert(written.wf());
    assert(once.polls == written.polls);
    assert(once.candidates == written.candidates);
    assert(once.ballots == written.ballots);
    assert(once.next_candidate_id == written.next_candidate_id);
    assert forall|i: int| 0 <= i < once.candidates.len() implies once.poll(
        (#[trigger] once.candidates[i]).poll_id,
    ).is_some() by {
        assert(written.poll(written.candidates[i].poll_id).is_some());
    }
    assert forall|i: int| 0 <= i < once.ballots.len() implies once.poll(
        (#[trigger] once.ballots[i]).poll_id,
    ).is_some() by {
        assert(written.poll(written.ballots[i].poll_id).is_some());
    }
}

/// After a ballot was accepted, the store holds it as it was cast: under its
/// id, with its name, its owner and the moment of the cast.
pub proof fn lemma_ballot_after_put(
    state: State,
    poll_id: Seq<char>,
    ballot: BallotView,
    names: Seq<Seq<char>>,
)
    requires
        ballot_write_of(state.ballot(poll_id, ballot.id), ballot).is_ok(),
    ensures
        put_ballot_state(state, poll_id, ballot, names).ballot(poll_id, ballot.id) == Some(ballot),
{
    let keep = ballot_with_id(poll_id, ballot.id);
    let after = put_ballot_state(state, poll_id, ballot, names);
    if state.ballot(poll_id, ballot.id).is_none() {
        let entry = BallotEntryView { poll_id, ballot };
        assert(after.ballots == state.ballots.push(entry));
        lemma_filter_push(state.ballots, entry, keep);
    } else {
        let change = touch(poll_id, ballot);
        assert(after.ballots == state.ballots.map_values(change));
        assert forall|x: BallotEntryView| keep(#[trigger] change(x)) == keep(x) by {}
        lemma_filter_map(state.ballots, keep, change);
        lemma_filter_some(state.ballots, keep);
        let kept = state.ballots.filter(keep);
        assert(keep(kept[kept.len() - 1]));
        assert(kept.map_values(change).last() == change(kept.last()));
    }
}

/// Casting the same ballot a second time is accepted and changes nothing but
/// the ballot's timestamp: no ballot row is added, and the ranking rows are
/// the same, in the same order.
pub proof fn refresh_is_idempotent(
    state: State,
    poll_id: Seq<char>,
    ballot: BallotView,
    names: Seq<Seq<char>>,
    later: Timestamp,
)
    requires
        state.wf(),
        put_ballot_fault(state, poll_id, ballot, names).is_none(),
    ensures
        ({
            let once = put_ballot_state(state, poll_id, ballot, names);
            let again = BallotView { timestamp: later, ..ballot };
            let twice = put_ballot_state(once, poll_id, again, names);
            &&& put_ballot_fault(once, poll_id, again, names).is_none()
            &&& twice.ballots == once.ballots.map_values(touch(poll_id, again))
            &&& twice.ballots.len() == once.ballots.len()
            &&& twice.ballots.filter(ballot_with_id(poll_id, ballot.id)).len() == 1
            &&& twice.ballot(poll_id, ballot.id) == Some(again)
            &&& twice.rankings == once.rankings
            &&& twice.polls == once.polls
            &&& twice.candidates == once.candidates
        }),
{
    let once = put_ballot_state(state, poll_id, ballot, names);
    let again = BallotView { timestamp: later, ..ballot };
    let twice = put_ballot_state(once, poll_id, again, names);
    lemma_ballot_after_put(state, poll_id, ballot, names);
    assert(ballot_write_of(once.ballot(poll_id, again.id), again).is_ok());
    lemma_ballot_after_put(once, poll_id, again, names);
    assert(twice.ballots.filter(ballot_with_id(poll_id, ballot.id)).len() == 1) by {
        put_ballot_keeps_wf(state, poll_id, ballot, names);
        assert(put_ballot_fault(once, poll_id, again, names).is_none());
        put_ballot_keeps_wf(once, poll_id, again, names);
        lemma_one_ballot_row(twice.ballots, poll_id, ballot.id);
    }
    let rows = ranking_rows(
        state.candidates_of(poll_id),
        poll_id,
        ballot.id,
        names,
        names.len() as int,
    );
    let others = ranking_not_of(poll_id, ballot.id);
    let written = if state.ballot(poll_id, ballot.id).is_none() {
        state.with_ballot(poll_id, ballot)
    } else {
        state.with_ballot_touched(poll_id, ballot)
    };
    let base = state.rankings.filter(others);
    assert(written.rankings == state.rankings);
    assert(once.rankings == base + rows);
    lemma_filter_some(state.rankings, others);
    lemma_filter_all(base, others);
    lemma_filter_none(rows, others);
    lemma_filter_add(base, rows, others);
    assert(base + Seq::<RankingView>::empty() =~= base);
    assert(twice.rankings == once.rankings);
}

/// Once a ballot was accepted, a cast on its id by another identity is
/// refused as not the owner's, whatever it ranks without repeating a name.
pub proof fn other_owner_is_refused(
    state: State,
    poll_id: Seq<char>,
    ballot: BallotView,
    names: Seq<Seq<char>>,
    attempt: BallotView,
    attempt_names: Seq<Seq<char>>,
)
    requires
        put_ballot_fault(state, poll_id, ballot, names).is_none(),
        attempt.id == ballot.id,
        attempt.owner_id != ballot.owner_id,
        all_distinct(attempt_names),
    ensures
        put_ballot_fault(
            put_ballot_state(state, poll_id, ballot, names),
            poll_id,
            attempt,
            attempt_names,
        ) == Some(PutBallotFault::NotOwner),
{
    lemma_ballot_after_put(state, poll_id, ballot, names);
    lemma_first_duplicate_none(attempt_names);
}

/// Once a ballot was accepted, a cast on its id by its owner under another
/// display name is refused, whatever it ranks without repeating a name.
pub proof fn other_name_is_refused(
    state: State,
    poll_id: Seq<char>,
    ballot: BallotView,
    names: Seq<Seq<char>>,
    attempt: BallotView,
    attempt_names: Seq<Seq<char>>,
)
    requires
        put_ballot_fault(state, poll_id, ballot, names).is_none(),
        attempt.id == ballot.id,
        attempt.owner_id == ballot.owner_id,
        attempt.name != ballot.name,
        all_distinct(attempt_names),
    ensures
        put_ballot_fault(
            put_ballot_state(state, poll_id, ballot, names),
            poll_id,
            attempt,
            attempt_names,
        ) == Some(PutBallotFault::NotSameName),
{
    lemma_ballot_after_put(state, poll_id, ballot, names);
    lemma_first_duplicate_none(attempt_names);
}

/// A ballot that ranks a name twice is refused for the first name that
/// repeats an earlier one, whatever the store holds.
pub proof fn repeated_name_is_refused(
    state: State,
    poll_id: Seq<char>,
    ballot: BallotView,
    names: Seq<Seq<char>>,
)
    requires
        !all_distinct(names),
    ensures
        first_duplicate_of(names).is_some(),
        put_ballot_fault(state, poll_id, ballot, names) == Some(
            PutBallotFault::DuplicateRanking(first_duplicate_of(names).unwrap()),
        ),
{
    lemma_first_duplicate_none(names);
}

/// A ballot that is otherwise in order and ranks a name that is no candidate
/// of the poll is refused for the first such name.
pub proof fn unknown_candidate_is_refused(
    state: State,
    poll_id: Seq<char>,
    ballot: BallotView,
    names: Seq<Seq<char>>,
    i: int,
)
    requires
        all_distinct(names),
        state.poll(poll_id).is_some(),
        ballot_write_of(state.ballot(poll_id, ballot.id), ballot).is_ok(),
        0 <= i < names.len(),
        i <= i16::MAX + 1,
        forall|k: int|
            0 <= k < i ==> candidate_id_of(state.candidates_of(poll_id), #[trigger] names[k]).is_some(),
        candidate_id_of(state.candidates_of(poll_id), names[i]).is_none(),
    ensures
        put_ballot_fault(state, poll_id, ballot, names) == Some(
            PutBallotFault::CandidateNotFound(names[i]),
        ),
{
    let known = state.candidates_of(poll_id);
    let bad = unplaceable(known, names);
    lemma_first_duplicate_none(names);
    assert forall|k: int| 0 <= k < i implies !#[trigger] bad(k) by {
        assert(candidate_id_of(known, names[k]).is_some());
        assert(placeable(known, names, k));
    }
    assert(bad(i));
    lemma_first_index_is(names.len() as int, bad, i);
    assert(placed_count(known, names) == i);
}

/// Whether no two candidates of the sequence share an id.
pub open spec fn ids_unique(candidates: Seq<CandidateView>) -> bool {
    forall|i: int, j: int|
        0 <= i < j < candidates.len() ==> (#[trigger] candidates[i]).id != (
        #[trigger] candidates[j]).id
}

/// Each candidate of a poll stands in the store's candidates, under the poll.
pub proof fn lemma_candidates_of_stored(entries: Seq<CandidateEntryView>, poll_id: Seq<char>)
    ensures
        forall|i: int|
            0 <= i < entries.filter(candidate_in(poll_id)).len() ==> entries.contains(
                CandidateEntryView {
                    poll_id,
                    candidate: #[trigger] entries.filter(candidate_in(poll_id)).map_values(
                        candidate_part(),
                    )[i],
                },
            ),
{
    lemma_filter_some(entries, candidate_in(poll_id));
    let kept = entries.filter(candidate_in(poll_id));
    assert forall|i: int| 0 <= i < kept.len() implies entries.contains(
        CandidateEntryView {
            poll_id,
            candidate: #[trigger] kept.map_values(candidate_part())[i],
        },
    ) by {
        assert(candidate_in(poll_id)(kept[i]));
        assert(entries.contains(kept[i]));
        assert(kept[i] == CandidateEntryView { poll_id, candidate: kept[i].candidate });
    }
}

/// Where no two stored candidates share an id, no two candidates of a poll do.
pub proof fn lemma_candidates_of_ids_unique(entries: Seq<CandidateEntryView>, poll_id: Seq<char>)
    requires
        forall|i: int, j: int|
            0 <= i < j < entries.len() ==> (#[trigger] entries[i]).candidate.id != (
            #[trigger] entries[j]).candidate.id,
    ensures
        ids_unique(entries.filter(candidate_in(poll_id)).map_values(candidate_part())),
    decreases entries.len(),
{
    let keep = candidate_in(poll_id);
    if entries.len() == 0 {
        reveal(Seq::filter);
    } else {
        let front = entries.drop_last();
        let x = entries.last();
        assert forall|i: int, j: int| 0 <= i < j < front.len() implies (
        #[trigger] front[i]).candidate.id != (#[trigger] front[j]).candidate.id by {
            assert(front[i] == entries[i] && front[j] == entries[j]);
        }
        lemma_candidates_of_ids_unique(front, poll_id);
        lemma_filter_push(front, x, keep);
        assert(front.push(x) =~= entries);
        if keep(x) {
            let before = front.filter(keep).map_values(candidate_part());
            let all = entries.filter(keep).map_values(candidate_part());
            assert(all =~= before.push(x.candidate));
            lemma_candidates_of_stored(front, poll_id);
            assert forall|i: int, j: int| 0 <= i < j < all.len() implies (#[trigger] all[i]).id != (
            #[trigger] all[j]).id by {
                if j == before.len() {
                    let e = CandidateEntryView { poll_id, candidate: before[i] };
                    assert(front.contains(e));
                    let t = choose|t: int| 0 <= t < front.len() && front[t] == e;
                    assert(entries[t] == e);
                    assert(entries[entries.len() - 1] == x);
                } else {
                    assert(all[i] == before[i] && all[j] == before[j]);
                }
            }
        }
    }
}

/// Where no two candidates share an id, the id that a name stands for
/// stands for that name.
pub proof fn lemma_name_of_resolved(candidates: Seq<CandidateView>, name: Seq<char>)
    requires
        ids_unique(candidates),
        candidate_id_of(candidates, name).is_some(),
    ensures
        candidate_name_of(candidates, candidate_id_of(candidates, name).unwrap()) == Some(name),
{
    lemma_filter_some(candidates, named(name));
    let by_name = candidates.filter(named(name));
    let c = by_name.last();
    assert(named(name)(by_name[by_name.len() - 1]));
    assert(candidates.contains(by_name[by_name.len() - 1]));
    let a = choose|a: int| 0 <= a < candidates.len() && candidates[a] == c;
    lemma_filter_some(candidates, with_id(c.id));
    assert(with_id(c.id)(candidates[a]));
    let by_id = candidates.filter(with_id(c.id));
    let d = by_id.last();
    assert(with_id(c.id)(by_id[by_id.len() - 1]));
    assert(candidates.contains(by_id[by_id.len() - 1]));
    let b = choose|b: int| 0 <= b < candidates.len() && candidates[b] == d;
    if a < b {
        assert(candidates[a].id != candidates[b].id);
    } else if b < a {
        assert(candidates[b].id != candidates[a].id);
    }
}

/// Every name of an accepted ballot gets a ranking row.
pub proof fn lemma_accepted_names_placeable(
    state: State,
    poll_id: Seq<char>,
    ballot: BallotView,
    names: Seq<Seq<char>>,
)
    requires
        put_ballot_fault(state, poll_id, ballot, names).is_none(),
    ensures
        all_distinct(names),
        state.poll(poll_id).is_some(),
        ballot_write_of(state.ballot(poll_id, ballot.id), ballot).is_ok(),
        forall|i: int|
            0 <= i < names.len() ==> #[trigger] placeable(state.candidates_of(poll_id), names, i),
{
    let known = state.candidates_of(poll_id);
    lemma_first_duplicate_none(names);
    lemma_first_index(names.len() as int, unplaceable(known, names));
    assert(resolution_fault(known, names).is_none());
    assert(placed_count(known, names) == names.len());
    assert forall|i: int| 0 <= i < names.len() implies #[trigger] placeable(known, names, i) by {
        assert(!unplaceable(known, names)(i));
    }
}

/// After a ballot was accepted, its ranking rows in the store are exactly one
/// per name that it ranks, in the order of the names, the position of each
/// being its index: what the ballot ranked before is gone.
pub proof fn rankings_are_replaced(
    state: State,
    poll_id: Seq<char>,
    ballot: BallotView,
    names: Seq<Seq<char>>,
)
    requires
        put_ballot_fault(state, poll_id, ballot, names).is_none(),
    ensures
        put_ballot_state(state, poll_id, ballot, names).rankings_of_ballot(poll_id, ballot.id)
            == ranking_rows(
            state.candidates_of(poll_id),
            poll_id,
            ballot.id,
            names,
            names.len() as int,
        ),
{
    let rows = ranking_rows(
        state.candidates_of(poll_id),
        poll_id,
        ballot.id,
        names,
        names.len() as int,
    );
    let own = ranking_of(poll_id, ballot.id);
    let others = ranking_not_of(poll_id, ballot.id);
    let base = state.rankings.filter(others);
    let once = put_ballot_state(state, poll_id, ballot, names);
    assert(once.rankings == base + rows);
    lemma_filter_some(state.rankings, others);
    assert forall|i: int| 0 <= i < base.len() implies !own(#[trigger] base[i]) by {
        assert(others(base[i]));
    }
    lemma_filter_none(base, own);
    lemma_filter_all(rows, own);
    lemma_filter_add(base, rows, own);
    assert(Seq::<RankingView>::empty() + rows =~= rows);
}

/// The names of the ranking rows of the first `count` names of an accepted
/// ballot are those names.
pub proof fn lemma_names_of_ranking_rows(
    candidates: Seq<CandidateView>,
    poll_id: Seq<char>,
    ballot_id: Seq<char>,
    names: Seq<Seq<char>>,
    count: int,
)
    requires
        ids_unique(candidates),
        0 <= count <= names.len(),
        forall|i: int| 0 <= i < count ==> candidate_id_of(candidates, #[trigger] names[i]).is_some(),
    ensures
        names_of_rows(candidates, ranking_rows(candidates, poll_id, ballot_id, names, count))
            == names.take(count),
    decreases count,
{
    if count == 0 {
        assert(ranking_rows(candidates, poll_id, ballot_id, names, 0) =~= Seq::empty());
        assert(names.take(0) =~= Seq::empty());
    } else {
        let front = ranking_rows(candidates, poll_id, ballot_id, names, count - 1);
        let row = ranking_row(candidates, poll_id, ballot_id, names, count - 1);
        lemma_names_of_ranking_rows(candidates, poll_id, ballot_id, names, count - 1);
        assert(ranking_rows(candidates, poll_id, ballot_id, names, count) =~= front.push(row));
        lemma_names_of_rows_push(candidates, front, row);
        assert(candidate_id_of(candidates, names[count - 1]).is_some());
        lemma_name_of_resolved(candidates, names[count - 1]);
        assert(names.take(count) =~= names.take(count - 1).push(names[count - 1]));
    }
}

/// The ranking rows of names that all get one stand in ascending order of
/// position.
pub proof fn lemma_ranking_rows_ascending(
    candidates: Seq<CandidateView>,
    poll_id: Seq<char>,
    ballot_id: Seq<char>,
    names: Seq<Seq<char>>,
)
    requires
        forall|i: int| 0 <= i < names.len() ==> #[trigger] placeable(candidates, names, i),
    ensures
        ascending(ranking_rows(candidates, poll_id, ballot_id, names, names.len() as int)),
{
    let rows = ranking_rows(candidates, poll_id, ballot_id, names, names.len() as int);
    assert forall|i: int, j: int| 0 <= i < j < rows.len() implies rows[i].ranking
        <= rows[j].ranking by {
        assert(placeable(candidates, names, i));
        assert(placeable(candidates, names, j));
        assert(rows[i].ranking == i);
        assert(rows[j].ranking == j);
    }
}

/// The ranking rows that a reader of a poll finds for a ballot are the
/// ballot's ranking rows in the store.
pub proof fn lemma_rows_read(state: State, poll_id: Seq<char>, ballot_id: Seq<char>)
    ensures
        state.rankings_of(poll_id).filter(of_ballot(ballot_id)) == state.rankings_of_ballot(
            poll_id,
            ballot_id,
        ),
{
    lemma_filter_filter(
        state.rankings,
        ranking_in(poll_id),
        of_ballot(ballot_id),
        ranking_of(poll_id, ballot_id),
    );
}

/// After a ballot was accepted, the ranking rows that a reader of the poll
/// finds for it are those of its names.
pub proof fn lemma_rows_read_after_put(
    state: State,
    poll_id: Seq<char>,
    ballot: BallotView,
    names: Seq<Seq<char>>,
)
    requires
        put_ballot_fault(state, poll_id, ballot, names).is_none(),
    ensures
        put_ballot_state(state, poll_id, ballot, names).rankings_of(poll_id).filter(
            of_ballot(ballot.id),
        ) == ranking_rows(
            state.candidates_of(poll_id),
            poll_id,
            ballot.id,
            names,
            names.len() as int,
        ),
{
    rankings_are_replaced(state, poll_id, ballot, names);
    lemma_rows_read(put_ballot_state(state, poll_id, ballot, names), poll_id, ballot.id);
}

/// The ranking rows of names that all get one are shown as those names, in
/// their order.
pub proof fn lemma_ranking_rows_shown(
    candidates: Seq<CandidateView>,
    poll_id: Seq<char>,
    ballot_id: Seq<char>,
    names: Seq<Seq<char>>,
)
    requires
        ids_unique(candidates),
        forall|i: int| 0 <= i < names.len() ==> #[trigger] placeable(candidates, names, i),
    ensures
        names_of_rows(
            candidates,
            sort_by_position(
                ranking_rows(candidates, poll_id, ballot_id, names, names.len() as int),
            ),
        ) == names,
{
    let rows = ranking_rows(candidates, poll_id, ballot_id, names, names.len() as int);
    lemma_ranking_rows_ascending(candidates, poll_id, ballot_id, names);
    lemma_sort_ascending(rows);
    assert forall|i: int| 0 <= i < names.len() implies candidate_id_of(
        candidates,
        #[trigger] names[i],
    ).is_some() by {
        assert(placeable(candidates, names, i));
    }
    lemma_names_of_ranking_rows(candidates, poll_id, ballot_id, names, names.len() as int);
    assert(names.take(names.len() as int) =~= names);
}

/// Where no two stored candidates share an id, no two candidates of a poll
/// do.
pub proof fn lemma_candidates_of_poll_ids_unique(state: State, poll_id: Seq<char>)
    requires
        state.wf(),
    ensures
        ids_unique(state.candidates_of(poll_id)),
{
    lemma_candidates_of_ids_unique(state.candidates, poll_id);
}

/// After a ballot was accepted, a reader of the poll is shown, for this
/// ballot, exactly the names that it ranked, in the order in which it
/// ranked them.
pub proof fn last_ranking_is_shown(
    state: State,
    poll_id: Seq<char>,
    ballot: BallotView,
    names: Seq<Seq<char>>,
)
    requires
        state.wf(),
        put_ballot_fault(state, poll_id, ballot, names).is_none(),
    ensures
        ranked_names(
            put_ballot_state(state, poll_id, ballot, names).candidates_of(poll_id),
            put_ballot_state(state, poll_id, ballot, names).rankings_of(poll_id),
            ballot.id,
        ) == names,
{
    let known = state.candidates_of(poll_id);
    lemma_candidates_of_poll_ids_unique(state, poll_id);
    lemma_accepted_names_placeable(state, poll_id, ballot, names);
    lemma_rows_read_after_put(state, poll_id, ballot, names);
    lemma_ranking_rows_shown(known, poll_id, ballot.id, names);
    assert(put_ballot_state(state, poll_id, ballot, names).candidates == state.candidates);
}

/// A reader is shown the names that a ballot ranks in ascending order of
/// their positions: the names of the ballot's ranking rows, sorted by
/// position, each row taken once.
pub proof fn names_are_shown_in_position_order(
    candidates: Seq<CandidateView>,
    rankings: Seq<RankingView>,
    ballot_id: Seq<char>,
)
    ensures
        ({
            let rows = rankings.filter(of_ballot(ballot_id));
            let sorted = sort_by_position(rows);
            &&& ascending(sorted)
            &&& sorted.to_multiset() == rows.to_multiset()
            &&& ranked_names(candidates, rankings, ballot_id) == names_of_rows(candidates, sorted)
        }),
{
    lemma_sort_by_position(rankings.filter(of_ballot(ballot_id)));
}

/// Ranking rows that stand in ascending order of position are shown in the
/// order in which they stand.
pub proof fn stored_order_is_kept(
    candidates: Seq<CandidateView>,
    rankings: Seq<RankingView>,
    ballot_id: Seq<char>,
)
    requires
        ascending(rankings.filter(of_ballot(ballot_id))),
    ensures
        ranked_names(candidates, rankings, ballot_id) == names_of_rows(
            candidates,
            rankings.filter(of_ballot(ballot_id)),
        ),
{
    lemma_sort_ascending(rankings.filter(of_ballot(ballot_id)));
}

/// A ballot that the store holds is still held after any ballot was accepted.
pub proof fn lemma_ballot_kept(
    state: State,
    poll_id: Seq<char>,
    ballot: BallotView,
    names: Seq<Seq<char>>,
    other_poll: Seq<char>,
    other_ballot: Seq<char>,
)
    requires
        state.ballot(other_poll, other_ballot).is_some(),
    ensures
        put_ballot_state(state, poll_id, ballot, names).ballot(other_poll, other_ballot).is_some(),
{
    let keep = ballot_with_id(other_poll, other_ballot);
    let after = put_ballot_state(state, poll_id, ballot, names);
    if state.ballot(poll_id, ballot.id).is_none() {
        lemma_filter_push(state.ballots, BallotEntryView { poll_id, ballot }, keep);
    } else {
        let change = touch(poll_id, ballot);
        assert(after.ballots == state.ballots.map_values(change));
        assert forall|x: BallotEntryView| keep(#[trigger] change(x)) == keep(x) by {}
        lemma_filter_map(state.ballots, keep, change);
    }
}

/// The id that a name stands for among the candidates of a poll is the id
/// of a candidate of that poll.
pub proof fn lemma_resolved_id_is_stored(state: State, poll_id: Seq<char>, name: Seq<char>)
    requires
        candidate_id_of(state.candidates_of(poll_id), name).is_some(),
    ensures
        state.has_candidate_id(
            poll_id,
            candidate_id_of(state.candidates_of(poll_id), name).unwrap(),
        ),
{
    let known = state.candidates_of(poll_id);
    lemma_filter_some(known, named(name));
    let by_name = known.filter(named(name));
    assert(known.contains(by_name[by_name.len() - 1]));
    let i = choose|i: int| 0 <= i < known.len() && known[i] == by_name.last();
    lemma_candidates_of_stored(state.candidates, poll_id);
    let entry = CandidateEntryView { poll_id, candidate: known[i] };
    assert(state.candidates.contains(entry));
    let t = choose|t: int| 0 <= t < state.candidates.len() && state.candidates[t] == entry;
    assert(state.candidates[t].poll_id == poll_id);
}

/// The ranking rows of an accepted ballot hold the positions 0, 1, 2, ... in
/// their order and name no candidate twice.
pub proof fn lemma_ranking_rows_in_order(
    candidates: Seq<CandidateView>,
    poll_id: Seq<char>,
    ballot_id: Seq<char>,
    names: Seq<Seq<char>>,
)
    requires
        ids_unique(candidates),
        all_distinct(names),
        forall|i: int| 0 <= i < names.len() ==> #[trigger] placeable(candidates, names, i),
    ensures
        positions_in_order(
            ranking_rows(candidates, poll_id, ballot_id, names, names.len() as int),
        ),
{
    let rows = ranking_rows(candidates, poll_id, ballot_id, names, names.len() as int);
    assert forall|k: int| 0 <= k < rows.len() implies (#[trigger] rows[k]).ranking == k by {
        assert(placeable(candidates, names, k));
    }
    assert forall|i: int, j: int| 0 <= i < j < rows.len() implies (
    #[trigger] rows[i]).candidate_id != (#[trigger] rows[j]).candidate_id by {
        assert(placeable(candidates, names, i));
        assert(placeable(candidates, names, j));
        lemma_name_of_resolved(candidates, names[i]);
        lemma_name_of_resolved(candidates, names[j]);
    }
}

/// Casting a ballot leaves the ranking rows of every other ballot as they
/// stand.
pub proof fn other_rankings_are_kept(
    state: State,
    poll_id: Seq<char>,
    ballot: BallotView,
    names: Seq<Seq<char>>,
    other_poll: Seq<char>,
    other_ballot: Seq<char>,
)
    requires
        !(other_poll == poll_id && other_ballot == ballot.id),
    ensures
        put_ballot_state(state, poll_id, ballot, names).rankings_of_ballot(
            other_poll,
            other_ballot,
        ) == state.rankings_of_ballot(other_poll, other_ballot),
{
    let rows = ranking_rows(
        state.candidates_of(poll_id),
        poll_id,
        ballot.id,
        names,
        names.len() as int,
    );
    let theirs = ranking_of(other_poll, other_ballot);
    let others = ranking_not_of(poll_id, ballot.id);
    let base = state.rankings.filter(others);
    let once = put_ballot_state(state, poll_id, ballot, names);
    assert(once.rankings == base + rows);
    lemma_filter_add(base, rows, theirs);
    lemma_filter_none(rows, theirs);
    lemma_filter_filter(state.rankings, others, theirs, theirs);
    assert(base.filter(theirs) + Seq::<RankingView>::empty() =~= base.filter(theirs));
}

/// Casting a ballot keeps the rules on ranking rows: each row belongs to a
/// ballot of its poll and names a candidate of its poll, and the rows of
/// each ballot hold the positions 0, 1, 2, ... and name no candidate twice.
pub proof fn put_ballot_keeps_rankings_consistent(
    state: State,
    poll_id: Seq<char>,
    ballot: BallotView,
    names: Seq<Seq<char>>,
)
    requires
        state.wf(),
        state.rankings_consistent(),
        put_ballot_fault(state, poll_id, ballot, names).is_none(),
    ensures
        put_ballot_state(state, poll_id, ballot, names).rankings_consistent(),
{
    let once = put_ballot_state(state, poll_id, ballot, names);
    let known = state.candidates_of(poll_id);
    let rows = ranking_rows(known, poll_id, ballot.id, names, names.len() as int);
    let others = ranking_not_of(poll_id, ballot.id);
    let base = state.rankings.filter(others);
    lemma_accepted_names_placeable(state, poll_id, ballot, names);
    assert(once.rankings == base + rows);
    lemma_filter_some(state.rankings, others);
    assert forall|k: int| 0 <= k < once.rankings.len() implies once.ballot(
        (#[trigger] once.rankings[k]).poll_id,
        once.rankings[k].ballot_id,
    ).is_some() && once.has_candidate_id(once.rankings[k].poll_id, once.rankings[k].candidate_id) by {
        if k < base.len() {
            assert(state.rankings.contains(base[k]));
            let t = choose|t: int| 0 <= t < state.rankings.len() && state.rankings[t] == base[k];
            assert(state.ballot(state.rankings[t].poll_id, state.rankings[t].ballot_id).is_some());
            lemma_ballot_kept(state, poll_id, ballot, names, base[k].poll_id, base[k].ballot_id);
            assert(state.has_candidate_id(state.rankings[t].poll_id, state.rankings[t].candidate_id));
            assert(once.candidates == state.candidates);
        } else {
            let i = k - base.len();
            assert(once.rankings[k] == rows[i]);
            lemma_ballot_after_put(state, poll_id, ballot, names);
            assert(placeable(known, names, i));
            lemma_resolved_id_is_stored(state, poll_id, names[i]);
            assert(once.candidates == state.candidates);
        }
    }
    assert forall|p: Seq<char>, b: Seq<char>|
        positions_in_order(#[trigger] once.rankings_of_ballot(p, b)) by {
        if p == poll_id && b == ballot.id {
            rankings_are_replaced(state, poll_id, ballot, names);
            lemma_candidates_of_ids_unique(state.candidates, poll_id);
            lemma_ranking_rows_in_order(known, poll_id, ballot.id, names);
        } else {
            other_rankings_are_kept(state, poll_id, ballot, names, p, b);
            assert(positions_in_order(state.rankings_of_ballot(p, b)));
        }
    }
}

/// Adding a poll or candidates keeps the rules on ranking rows.
pub proof fn lemma_more_candidates_keep_rankings_consistent(state: State, after: State)
    requires
        state.rankings_consistent(),
        after.rankings == state.rankings,
        after.ballots == state.ballots,
        after.candidates.len() >= state.candidates.len(),
        forall|i: int|
            0 <= i < state.candidates.len() ==> #[trigger] after.candidates[i]
                == state.candidates[i],
    ensures
        after.rankings_consistent(),
{
    assert forall|k: int| 0 <= k < after.rankings.len() implies after.has_candidate_id(
        (#[trigger] after.rankings[k]).poll_id,
        after.rankings[k].candidate_id,
    ) by {
        let row = state.rankings[k];
        assert(state.has_candidate_id(row.poll_id, row.candidate_id));
        let i = choose|i: int|
            0 <= i < state.candidates.len() && (#[trigger] state.candidates[i]).poll_id
                == row.poll_id && state.candidates[i].candidate.id == row.candidate_id;
        assert(after.candidates[i] == state.candidates[i]);
    }
    assert forall|k: int| 0 <= k < after.rankings.len() implies after.ballot(
        (#[trigger] after.rankings[k]).poll_id,
        after.rankings[k].ballot_id,
    ).is_some() by {
        assert(state.ballot(state.rankings[k].poll_id, state.rankings[k].ballot_id).is_some());
    }
    assert forall|p: Seq<char>, b: Seq<char>|
        positions_in_order(#[trigger] after.rankings_of_ballot(p, b)) by {
        assert(after.rankings_of_ballot(p, b) == state.rankings_of_ballot(p, b));
    }
}

/// Whether the rows hold the positions 0, 1, 2, ... up to their number, each
/// once, in whatever order they stand.
pub open spec fn positions_counted(rows: Seq<RankingView>) -> bool {
    &&& forall|k: int| 0 <= k < rows.len() ==> 0 <= (#[trigger] rows[k]).ranking < rows.len()
    &&& forall|i: int, j: int|
        0 <= i < j < rows.len() ==> (#[trigger] rows[i]).ranking != (#[trigger] rows[j]).ranking
}

/// Whether the candidate of every row is known.
pub open spec fn all_known(candidates: Seq<CandidateView>, rows: Seq<RankingView>) -> bool {
    forall|k: int|
        0 <= k < rows.len() ==> candidate_name_of(
            candidates,
            (#[trigger] rows[k]).candidate_id,
        ).is_some()
}

/// Whether the positions rise from each row to the next.
pub open spec fn rising(rows: Seq<RankingView>) -> bool {
    forall|a: int, b: int|
        0 <= a < b < rows.len() ==> (#[trigger] rows[a]).ranking < (#[trigger] rows[b]).ranking
}

/// In rows whose positions rise from zero or more, the position at an index
/// is no smaller than the index.
pub proof fn lemma_rising_from_below(rows: Seq<RankingView>, i: int)
    requires
        rising(rows),
        0 <= i < rows.len(),
        0 <= rows[0].ranking,
    ensures
        i <= rows[i].ranking,
    decreases i,
{
    if i > 0 {
        lemma_rising_from_below(rows, i - 1);
        assert(rows[i - 1].ranking < rows[i].ranking);
    }
}

/// In rows whose positions rise to less than their number, the position at
/// an index is no larger than the index.
pub proof fn lemma_rising_from_above(rows: Seq<RankingView>, i: int)
    requires
        rising(rows),
        0 <= i < rows.len(),
        rows[rows.len() - 1].ranking < rows.len(),
    ensures
        rows[i].ranking <= i,
    decreases rows.len() - i,
{
    if i < rows.len() - 1 {
        lemma_rising_from_above(rows, i + 1);
        assert(rows[i].ranking < rows[i + 1].ranking);
    }
}

/// Sorting rows that hold the positions 0, 1, 2, ..., each once, puts the
/// row of each position at the index that is its position.
pub proof fn lemma_sorted_by_count(rows: Seq<RankingView>)
    requires
        positions_counted(rows),
    ensures
        sort_by_position(rows).len() == rows.len(),
        forall|i: int| 0 <= i < rows.len() ==> (#[trigger] sort_by_position(rows)[i]).ranking == i,
        forall|i: int| 0 <= i < rows.len() ==> rows.contains(#[trigger] sort_by_position(rows)[i]),
{
    broadcast use vstd::seq_lib::group_to_multiset_ensures;

    let sorted = sort_by_position(rows);
    lemma_sort_by_position(rows);
    assert(rows.no_duplicates()) by {
        assert forall|i: int, j: int| 0 <= i < rows.len() && 0 <= j < rows.len() && i != j implies rows[i]
            != rows[j] by {
            if i < j {
                assert(rows[i].ranking != rows[j].ranking);
            } else {
                assert(rows[j].ranking != rows[i].ranking);
            }
        }
    }
    rows.lemma_multiset_has_no_duplicates();
    sorted.lemma_multiset_has_no_duplicates_conv();
    assert forall|i: int| 0 <= i < sorted.len() implies rows.contains(#[trigger] sorted[i]) by {
        assert(sorted.contains(sorted[i]));
        assert(sorted.to_multiset().count(sorted[i]) > 0);
        assert(rows.to_multiset().count(sorted[i]) > 0);
    }
    assert(rising(sorted)) by {
        assert forall|a: int, b: int| 0 <= a < b < sorted.len() implies (
        #[trigger] sorted[a]).ranking < (#[trigger] sorted[b]).ranking by {
            assert(sorted[a] != sorted[b]);
            assert(rows.contains(sorted[a]));
            assert(rows.contains(sorted[b]));
            let x = choose|x: int| 0 <= x < rows.len() && rows[x] == sorted[a];
            let y = choose|y: int| 0 <= y < rows.len() && rows[y] == sorted[b];
            if x < y {
                assert(rows[x].ranking != rows[y].ranking);
            } else if y < x {
                assert(rows[y].ranking != rows[x].ranking);
            }
            assert(sorted[a].ranking <= sorted[b].ranking);
        }
    }
    assert forall|i: int| 0 <= i < rows.len() implies (#[trigger] sorted[i]).ranking == i by {
        assert(rows.contains(sorted[0]));
        let x = choose|x: int| 0 <= x < rows.len() && rows[x] == sorted[0];
        assert(0 <= rows[x].ranking);
        assert(rows.contains(sorted[sorted.len() - 1]));
        let y = choose|y: int| 0 <= y < rows.len() && rows[y] == sorted[sorted.len() - 1];
        assert(rows[y].ranking < rows.len());
        lemma_rising_from_below(sorted, i);
        lemma_rising_from_above(sorted, i);
    }
}

/// Where the candidate of every row is known, the rows are shown as one
/// name each, in their order.
pub proof fn lemma_names_of_known_rows(candidates: Seq<CandidateView>, rows: Seq<RankingView>)
    requires
        all_known(candidates, rows),
    ensures
        names_of_rows(candidates, rows).len() == rows.len(),
        forall|i: int|
            0 <= i < rows.len() ==> #[trigger] names_of_rows(candidates, rows)[i]
                == candidate_name_of(candidates, rows[i].candidate_id).unwrap(),
    decreases rows.len(),
{
    if rows.len() > 0 {
        let front = rows.drop_last();
        assert forall|k: int| 0 <= k < front.len() implies candidate_name_of(
            candidates,
            (#[trigger] front[k]).candidate_id,
        ).is_some() by {
            assert(front[k] == rows[k]);
        }
        lemma_names_of_known_rows(candidates, front);
        lemma_names_of_rows_push(candidates, front, rows.last());
        assert(front.push(rows.last()) =~= rows);
        assert(candidate_name_of(candidates, rows[rows.len() - 1].candidate_id).is_some());
        assert forall|i: int| 0 <= i < rows.len() implies #[trigger] names_of_rows(
            candidates,
            rows,
        )[i] == candidate_name_of(candidates, rows[i].candidate_id).unwrap() by {
            if i < front.len() {
                assert(names_of_rows(candidates, front)[i] == candidate_name_of(
                    candidates,
                    front[i].candidate_id,
                ).unwrap());
                assert(front[i] == rows[i]);
            }
        }
    }
}

/// Where the ranking rows of a ballot hold the positions 0, 1, 2, ..., each
/// once, and name known candidates, a reader is shown one name per row, and
/// the name at each index is that of the candidate of the row with that
/// position: whatever the order in which the rows are stored.
pub proof fn names_follow_positions(
    candidates: Seq<CandidateView>,
    rankings: Seq<RankingView>,
    ballot_id: Seq<char>,
)
    requires
        positions_counted(rankings.filter(of_ballot(ballot_id))),
        all_known(candidates, rankings.filter(of_ballot(ballot_id))),
    ensures
        ranked_names(candidates, rankings, ballot_id).len() == rankings.filter(
            of_ballot(ballot_id),
        ).len(),
        forall|k: int|
            0 <= k < rankings.filter(of_ballot(ballot_id)).len() ==> ranked_names(
                candidates,
                rankings,
                ballot_id,
            )[(#[trigger] rankings.filter(of_ballot(ballot_id))[k]).ranking as int]
                == candidate_name_of(
                candidates,
                rankings.filter(of_ballot(ballot_id))[k].candidate_id,
            ).unwrap(),
{
    let rows = rankings.filter(of_ballot(ballot_id));
    let sorted = sort_by_position(rows);
    lemma_sorted_by_count(rows);
    assert(all_known(candidates, sorted)) by {
        assert forall|i: int| 0 <= i < sorted.len() implies candidate_name_of(
            candidates,
            (#[trigger] sorted[i]).candidate_id,
        ).is_some() by {
            assert(rows.contains(sorted[i]));
            let x = choose|x: int| 0 <= x < rows.len() && rows[x] == sorted[i];
            assert(candidate_name_of(candidates, rows[x].candidate_id).is_some());
        }
    }
    lemma_names_of_known_rows(candidates, sorted);
    assert forall|k: int| 0 <= k < rows.len() implies names_of_rows(candidates, sorted)[(
    #[trigger] rows[k]).ranking as int] == candidate_name_of(
        candidates,
        rows[k].candidate_id,
    ).unwrap() by {
        let p = rows[k].ranking as int;
        assert(0 <= p < rows.len());
        assert(sorted[p].ranking == p);
        assert(rows.contains(sorted[p]));
        let x = choose|x: int| 0 <= x < rows.len() && rows[x] == sorted[p];
        if x < k {
            assert(rows[x].ranking != rows[k].ranking);
        } else if k < x {
            assert(rows[k].ranking != rows[x].ranking);
        }
        assert(sorted[p] == rows[k]);
    }
}

/// A candidate id of a poll is known among the poll's candidates as they
/// are read from the store.
pub proof fn lemma_stored_id_is_known(state: State, poll_id: Seq<char>, id: i32)
    requires
        state.has_candidate_id(poll_id, id),
    ensures
        candidate_name_of(state.candidates_of(poll_id), id).is_some(),
{
    let keep = candidate_in(poll_id);
    let kept = state.candidates.filter(keep);
    let known = state.candidates_of(poll_id);
    let t = choose|t: int|
        0 <= t < state.candidates.len() && (#[trigger] state.candidates[t]).poll_id == poll_id
            && state.candidates[t].candidate.id == id;
    assert(keep(state.candidates[t]));
    state.candidates.lemma_filter_contains(keep, t);
    let i = choose|i: int| 0 <= i < kept.len() && kept[i] == state.candidates[t];
    assert(known[i].id == id);
    assert(with_id(id)(known[i]));
    lemma_filter_some(known, with_id(id));
}

/// Where the ranking rows of a ballot in the store hold the positions 0, 1,
/// 2, ..., each once, and name candidates of the poll, a reader of the poll
/// is shown one name per row for that ballot, and the name at each index is
/// that of the candidate of the row with that position: whatever the order
/// in which the store holds the rows.
pub proof fn shown_names_follow_positions(state: State, poll_id: Seq<char>, ballot_id: Seq<char>)
    requires
        positions_counted(state.rankings_of_ballot(poll_id, ballot_id)),
        forall|k: int|
            0 <= k < state.rankings_of_ballot(poll_id, ballot_id).len() ==> state.has_candidate_id(
                poll_id,
                (#[trigger] state.rankings_of_ballot(poll_id, ballot_id)[k]).candidate_id,
            ),
    ensures
        ranked_names(state.candidates_of(poll_id), state.rankings_of(poll_id), ballot_id).len()
            == state.rankings_of_ballot(poll_id, ballot_id).len(),
        forall|k: int|
            0 <= k < state.rankings_of_ballot(poll_id, ballot_id).len() ==> ranked_names(
                state.candidates_of(poll_id),
                state.rankings_of(poll_id),
                ballot_id,
            )[(#[trigger] state.rankings_of_ballot(poll_id, ballot_id)[k]).ranking as int]
                == candidate_name_of(
                state.candidates_of(poll_id),
                state.rankings_of_ballot(poll_id, ballot_id)[k].candidate_id,
            ).unwrap(),
{
    let rows = state.rankings_of_ballot(poll_id, ballot_id);
    let known = state.candidates_of(poll_id);
    lemma_rows_read(state, poll_id, ballot_id);
    assert(all_known(known, rows)) by {
        assert forall|k: int| 0 <= k < rows.len() implies candidate_name_of(
            known,
            (#[trigger] rows[k]).candidate_id,
        ).is_some() by {
            lemma_stored_id_is_known(state, poll_id, rows[k].candidate_id);
        }
    }
    names_follow_positions(known, state.rankings_of(poll_id), ballot_id);
}

/// Whether a ballot is in order: it ranks no name twice, the store holds the
/// poll, the ballot is new or the caller's own under the same name, every
/// name it ranks is that of a candidate of the poll, and it ranks no more
/// names than there are positions.
pub open spec fn acceptable(
    state: State,
    poll_id: Seq<char>,
    ballot: BallotView,
    names: Seq<Seq<char>>,
) -> bool {
    &&& all_distinct(names)
    &&& state.poll(poll_id).is_some()
    &&& ballot_write_of(state.ballot(poll_id, ballot.id), ballot).is_ok()
    &&& forall|i: int|
        0 <= i < names.len() ==> candidate_id_of(
            state.candidates_of(poll_id),
            #[trigger] names[i],
        ).is_some()
    &&& names.len() <= i16::MAX + 1
}

/// A ballot is accepted exactly when it is in order.
pub proof fn ballot_is_accepted(
    state: State,
    poll_id: Seq<char>,
    ballot: BallotView,
    names: Seq<Seq<char>>,
)
    ensures
        put_ballot_fault(state, poll_id, ballot, names).is_none() <==> acceptable(
            state,
            poll_id,
            ballot,
            names,
        ),
{
    let known = state.candidates_of(poll_id);
    let bad = unplaceable(known, names);
    lemma_first_duplicate_none(names);
    if put_ballot_fault(state, poll_id, ballot, names).is_none() {
        lemma_accepted_names_placeable(state, poll_id, ballot, names);
        assert forall|i: int| 0 <= i < names.len() implies candidate_id_of(
            known,
            #[trigger] names[i],
        ).is_some() by {
            assert(placeable(known, names, i));
        }
        if names.len() > i16::MAX + 1 {
            assert(placeable(known, names, i16::MAX + 1));
        }
    }
    if acceptable(state, poll_id, ballot, names) {
        assert forall|k: int| 0 <= k < names.len() implies !#[trigger] bad(k) by {
            assert(candidate_id_of(known, names[k]).is_some());
            assert(placeable(known, names, k));
        }
        lemma_first_index_is(names.len() as int, bad, names.len() as int);
        assert(placed_count(known, names) == names.len());
    }
}

/// A ballot that the store holds, cast again by its owner under its name at
/// the moment `now` with a ranking that is in order, is accepted: the store
/// then holds it with `now` as its timestamp and its id, name and owner as
/// they were, and holds no other row for it.
pub proof fn own_ballot_is_refreshed(
    state: State,
    poll_id: Seq<char>,
    row: BallotView,
    now: Timestamp,
    names: Seq<Seq<char>>,
)
    requires
        state.wf(),
        state.ballot(poll_id, row.id) == Some(row),
        acceptable(state, poll_id, BallotView { timestamp: now, ..row }, names),
    ensures
        ({
            let ballot = BallotView { timestamp: now, ..row };
            let after = put_ballot_state(state, poll_id, ballot, names);
            &&& put_ballot_fault(state, poll_id, ballot, names).is_none()
            &&& after.ballot(poll_id, row.id) == Some(ballot)
            &&& after.ballots.len() == state.ballots.len()
            &&& after.ballots.filter(ballot_with_id(poll_id, row.id)).len() == 1
        }),
{
    let ballot = BallotView { timestamp: now, ..row };
    let after = put_ballot_state(state, poll_id, ballot, names);
    ballot_is_accepted(state, poll_id, ballot, names);
    lemma_ballot_after_put(state, poll_id, ballot, names);
    put_ballot_keeps_wf(state, poll_id, ballot, names);
    lemma_one_ballot_row(after.ballots, poll_id, row.id);
}

/// The ranking row at each index of names that all get one has the index
/// as its position and the candidate of the name at that index.
pub proof fn lemma_ranking_rows_match(
    candidates: Seq<CandidateView>,
    poll_id: Seq<char>,
    ballot_id: Seq<char>,
    names: Seq<Seq<char>>,
)
    requires
        ids_unique(candidates),
        forall|i: int| 0 <= i < names.len() ==> #[trigger] placeable(candidates, names, i),
    ensures
        forall|i: int|
            0 <= i < names.len() ==> (#[trigger] ranking_rows(
                candidates,
                poll_id,
                ballot_id,
                names,
                names.len() as int,
            )[i]).ranking == i && candidate_name_of(
                candidates,
                ranking_rows(candidates, poll_id, ballot_id, names, names.len() as int)[i].candidate_id,
            ) == Some(names[i]),
{
    let rows = ranking_rows(candidates, poll_id, ballot_id, names, names.len() as int);
    assert forall|i: int| 0 <= i < names.len() implies (#[trigger] rows[i]).ranking == i
        && candidate_name_of(candidates, rows[i].candidate_id) == Some(names[i]) by {
        assert(placeable(candidates, names, i));
        lemma_name_of_resolved(candidates, names[i]);
    }
}

/// A ballot that is in order is accepted, and then the store holds for it
/// exactly one ranking row per name that it ranks, the row at each index
/// with that index as its position and the candidate of that name: what the
/// ballot ranked before is gone.
pub proof fn accepted_ranking_is_stored(
    state: State,
    poll_id: Seq<char>,
    ballot: BallotView,
    names: Seq<Seq<char>>,
)
    requires
        state.wf(),
        acceptable(state, poll_id, ballot, names),
    ensures
        put_ballot_fault(state, poll_id, ballot, names).is_none(),
        put_ballot_state(state, poll_id, ballot, names).rankings_of_ballot(
            poll_id,
            ballot.id,
        ).len() == names.len(),
        forall|i: int|
            0 <= i < names.len() ==> (#[trigger] put_ballot_state(
                state,
                poll_id,
                ballot,
                names,
            ).rankings_of_ballot(poll_id, ballot.id)[i]).ranking == i && candidate_name_of(
                state.candidates_of(poll_id),
                put_ballot_state(state, poll_id, ballot, names).rankings_of_ballot(
                    poll_id,
                    ballot.id,
                )[i].candidate_id,
            ) == Some(names[i]),
{
    ballot_is_accepted(state, poll_id, ballot, names);
    lemma_accepted_names_placeable(state, poll_id, ballot, names);
    rankings_are_replaced(state, poll_id, ballot, names);
    lemma_candidates_of_poll_ids_unique(state, poll_id);
    lemma_ranking_rows_match(state.candidates_of(poll_id), poll_id, ballot.id, names);
}

/// A ballot that is in order is accepted, and then a reader of the poll is
/// shown for it exactly the names that it ranked, in the order in which it
/// ranked them, while the ranking rows of every other ballot are as they
/// were.
pub proof fn accepted_ranking_is_shown(
    state: State,
    poll_id: Seq<char>,
    ballot: BallotView,
    names: Seq<Seq<char>>,
)
    requires
        state.wf(),
        acceptable(state, poll_id, ballot, names),
    ensures
        put_ballot_fault(state, poll_id, ballot, names).is_none(),
        ranked_names(
            put_ballot_state(state, poll_id, ballot, names).candidates_of(poll_id),
            put_ballot_state(state, poll_id, ballot, names).rankings_of(poll_id),
            ballot.id,
        ) == names,
        forall|other_poll: Seq<char>, other_ballot: Seq<char>|
            !(other_poll == poll_id && other_ballot == ballot.id) ==> #[trigger] put_ballot_state(
                state,
                poll_id,
                ballot,
                names,
            ).rankings_of_ballot(other_poll, other_ballot) == state.rankings_of_ballot(
                other_poll,
                other_ballot,
            ),
{
    ballot_is_accepted(state, poll_id, ballot, names);
    last_ranking_is_shown(state, poll_id, ballot, names);
    assert forall|other_poll: Seq<char>, other_ballot: Seq<char>|
        !(other_poll == poll_id && other_ballot == ballot.id) implies #[trigger] put_ballot_state(
        state,
        poll_id,
        ballot,
        names,
    ).rankings_of_ballot(other_poll, other_ballot) == state.rankings_of_ballot(
        other_poll,
        other_ballot,
    ) by {
        other_rankings_are_kept(state, poll_id, ballot, names, other_poll, other_ballot);
    }
}

/// What each answer of the resolver means: a name is reported as not found
/// only if it is the name of no candidate; a name is reported as ranked
/// twice only if it is the name of a candidate and an earlier index ranks
/// it too; and the answer is unexpected only if there are more names than
/// positions.
pub proof fn resolver_answers_mean_what_they_say(
    candidates: Seq<CandidateView>,
    names: Seq<Seq<char>>,
)
    ensures
        match resolution_fault(candidates, names) {
            Some(PutBallotFault::CandidateNotFound(name)) => candidate_id_of(
                candidates,
                name,
            ).is_none(),
            Some(PutBallotFault::DuplicateRanking(name)) => candidate_id_of(
                candidates,
                name,
            ).is_some() && !all_distinct(names),
            Some(PutBallotFault::Unexpected) => names.len() > i16::MAX + 1,
            Some(_) => false,
            None => true,
        },
{
    let bad = unplaceable(candidates, names);
    lemma_first_index(names.len() as int, bad);
    let count = placed_count(candidates, names);
    if count < names.len() {
        assert(bad(count));
        if candidate_id_of(candidates, names[count]).is_some() && occurs_before(names, count) {
            let i = choose|i: int| 0 <= i < count && #[trigger] names[i] == names[count];
            assert(names[i] == names[count]);
        }
    }
}

} // verus!
