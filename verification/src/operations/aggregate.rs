//! Reading a poll: its header, its candidates, and each ballot with the names
//! that it ranks, best first.

use vstd::prelude::*;

use itertools::Itertools;

use crate::db::state::{last_match, lemma_filter_push, lemma_filter_some};
use crate::db::{Ballot, BallotView, Candidate, CandidateView, Ranking, RankingView};
use crate::model::{BallotSummary, BallotSummaryView};
use crate::util::views;

verus! {

/// The test that a candidate passes when it has this id.
pub open spec fn with_id(id: i32) -> spec_fn(CandidateView) -> bool {
    |c: CandidateView| c.id == id
}

/// The name that a candidate id stands for: that of the last candidate with
/// this id.
pub open spec fn candidate_name_of(candidates: Seq<CandidateView>, id: i32) -> Option<Seq<char>> {
    match last_match(candidates, with_id(id)) {
        Some(c) => Some(c.name),
        None => None,
    }
}

/// The sorted rows with one more row: it stands behind every row whose
/// position is not larger than its own.
pub open spec fn insert_by_position(sorted: Seq<RankingView>, row: RankingView) -> Seq<RankingView>
    decreases sorted.len(),
{
    if sorted.len() == 0 {
        seq![row]
    } else if sorted.last().ranking <= row.ranking {
        sorted.push(row)
    } else {
        insert_by_position(sorted.drop_last(), row).push(sorted.last())
    }
}

/// The rows in ascending order of their positions; rows of the same position
/// keep the order in which they stood.
pub open spec fn sort_by_position(rows: Seq<RankingView>) -> Seq<RankingView>
    decreases rows.len(),
{
    if rows.len() == 0 {
        rows
    } else {
        insert_by_position(sort_by_position(rows.drop_last()), rows.last())
    }
}

/// Whether the positions of the rows never fall from one row to the next.
pub open spec fn ascending(rows: Seq<RankingView>) -> bool {
    forall|i: int, j: int| 0 <= i < j < rows.len() ==> rows[i].ranking <= rows[j].ranking
}

/// Where the row goes when all rows from `at` on have a larger position and
/// the row before `at` has none.
pub proof fn lemma_insert_by_position_at(sorted: Seq<RankingView>, row: RankingView, at: int)
    requires
        0 <= at <= sorted.len(),
        forall|k: int| at <= k < sorted.len() ==> (#[trigger] sorted[k]).ranking > row.ranking,
        at > 0 ==> sorted[at - 1].ranking <= row.ranking,
    ensures
        insert_by_position(sorted, row) == sorted.insert(at, row),
    decreases sorted.len(),
{
    if sorted.len() == 0 {
        assert(sorted.insert(at, row) =~= seq![row]);
    } else if at == sorted.len() {
        assert(sorted.insert(at, row) =~= sorted.push(row));
    } else {
        assert(sorted.last() == sorted[sorted.len() - 1]);
        lemma_insert_by_position_at(sorted.drop_last(), row, at);
        assert(sorted.drop_last().insert(at, row).push(sorted.last()) =~= sorted.insert(at, row));
    }
}

/// Inserting a row into ascending rows gives ascending rows that hold the
/// same rows and the new one.
pub proof fn lemma_insert_by_position(sorted: Seq<RankingView>, row: RankingView)
    requires
        ascending(sorted),
    ensures
        ascending(insert_by_position(sorted, row)),
        insert_by_position(sorted, row).to_multiset() == sorted.to_multiset().insert(row),
        insert_by_position(sorted, row).len() == sorted.len() + 1,
    decreases sorted.len(),
{
    broadcast use vstd::seq_lib::group_to_multiset_ensures;

    if sorted.len() == 0 {
    } else if sorted.last().ranking <= row.ranking {
    } else {
        let front = sorted.drop_last();
        lemma_insert_by_position(front, row);
        let placed = insert_by_position(front, row);
        assert(sorted =~= front.push(sorted.last()));
        assert forall|i: int, j: int| 0 <= i < j < placed.push(sorted.last()).len() implies placed.push(
            sorted.last(),
        )[i].ranking <= placed.push(sorted.last())[j].ranking by {
            if j == placed.len() {
                assert(placed.to_multiset().count(placed[i]) > 0);
                if placed[i] != row {
                    assert(front.to_multiset().count(placed[i]) > 0);
                    assert(front.contains(placed[i]));
                    let k = choose|k: int| 0 <= k < front.len() && front[k] == placed[i];
                    assert(sorted[k].ranking <= sorted[sorted.len() - 1].ranking);
                }
            }
        }
    }
}

/// Sorting gives ascending rows that hold the same rows as often.
pub proof fn lemma_sort_by_position(rows: Seq<RankingView>)
    ensures
        ascending(sort_by_position(rows)),
        sort_by_position(rows).to_multiset() == rows.to_multiset(),
        sort_by_position(rows).len() == rows.len(),
    decreases rows.len(),
{
    broadcast use vstd::seq_lib::group_to_multiset_ensures;

    if rows.len() > 0 {
        lemma_sort_by_position(rows.drop_last());
        lemma_insert_by_position(sort_by_position(rows.drop_last()), rows.last());
        assert(rows =~= rows.drop_last().push(rows.last()));
    }
}

/// Rows that are ascending already are left as they stand.
pub proof fn lemma_sort_ascending(rows: Seq<RankingView>)
    requires
        ascending(rows),
    ensures
        sort_by_position(rows) == rows,
    decreases rows.len(),
{
    if rows.len() > 0 {
        let front = rows.drop_last();
        lemma_sort_ascending(front);
        if front.len() > 0 {
            assert(front.last() == rows[rows.len() - 2]);
        }
        assert(front.push(rows.last()) =~= rows);
    }
}

/// Sorts ranking rows by position, ascending; rows of the same position keep
/// their order.
pub fn sort_rankings(rows: Vec<Ranking>) -> (sorted: Vec<Ranking>)
    ensures
        views(sorted@) == sort_by_position(views(rows@)),
        ascending(views(sorted@)),
        views(sorted@).to_multiset() == views(rows@).to_multiset(),
{
    let ghost given = views(rows@);
    let mut sorted: Vec<Ranking> = Vec::new();
    let mut i: usize = 0;
    assert(views(sorted@) =~= sort_by_position(given.take(0)));
    while i < rows.len()
        invariant
            i <= rows.len(),
            given == views(rows@),
            views(sorted@) == sort_by_position(given.take(i as int)),
            sorted.len() <= i,
        decreases rows.len() - i,
    {
        let row = rows[i].clone();
        let ghost placed = views(sorted@);
        let mut at: usize = sorted.len();
        while at > 0 && sorted[at - 1].ranking > row.ranking
            invariant
                at <= sorted.len(),
                placed == views(sorted@),
                forall|k: int| at <= k < placed.len() ==> (#[trigger] placed[k]).ranking > row.ranking,
            decreases at,
        {
            assert(placed[at - 1] == sorted[at - 1]@);
            at -= 1;
        }
        proof {
            if at > 0 {
                assert(placed[at - 1] == sorted[at - 1]@);
            }
            lemma_insert_by_position_at(placed, row@, at as int);
            assert(given.take(i as int + 1).drop_last() =~= given.take(i as int));
            assert(given.take(i as int + 1).last() == row@);
        }
        sorted.insert(at, row);
        assert(views(sorted@) =~= placed.insert(at as int, row@));
        i += 1;
    }
    assert(given.take(i as int) =~= given);
    proof {
        lemma_sort_by_position(given);
    }
    sorted
}

/// Looks a candidate id up among the candidates.
pub fn find_candidate_name(candidates: &Vec<Candidate>, id: i32) -> (found: Option<String>)
    ensures
        found.is_some() == candidate_name_of(views(candidates@), id).is_some(),
        found.is_some() ==> found.unwrap()@ == candidate_name_of(views(candidates@), id).unwrap(),
{
    let ghost keep = with_id(id);
    let ghost rows = views(candidates@);
    let mut found: Option<String> = None;
    let mut i: usize = 0;
    assert(rows.take(0).filter(keep) =~= Seq::empty()) by {
        reveal(Seq::filter);
    }
    while i < candidates.len()
        invariant
            i <= candidates.len(),
            rows == views(candidates@),
            keep == with_id(id),
            found.is_some() == candidate_name_of(rows.take(i as int), id).is_some(),
            found.is_some() ==> found.unwrap()@ == candidate_name_of(rows.take(i as int), id).unwrap(),
        decreases candidates.len() - i,
    {
        proof {
            lemma_filter_push(rows.take(i as int), rows[i as int], keep);
            assert(rows.take(i as int + 1) =~= rows.take(i as int).push(rows[i as int]));
        }
        if candidates[i].id == id {
            found = Some(candidates[i].name.clone());
        }
        i += 1;
    }
    assert(rows.take(i as int) =~= rows);
    found
}

/// What a ranking row contributes to a ballot's list of names: the name of
/// its candidate, or nothing where the candidate is not known.
pub open spec fn name_lookup(
    candidates: Seq<CandidateView>,
) -> spec_fn(RankingView) -> Option<Seq<char>> {
    |r: RankingView| candidate_name_of(candidates, r.candidate_id)
}

/// The names of the candidates of the rows, in the order of the rows; a row
/// whose candidate is not known is passed over.
pub open spec fn names_of_rows(
    candidates: Seq<CandidateView>,
    rows: Seq<RankingView>,
) -> Seq<Seq<char>> {
    rows.filter_map(name_lookup(candidates))
}

/// The names of rows that end in `row` are the names of the rows before it,
/// and then the name of `row` where its candidate is known.
pub proof fn lemma_names_of_rows_push(
    candidates: Seq<CandidateView>,
    rows: Seq<RankingView>,
    row: RankingView,
)
    ensures
        names_of_rows(candidates, rows.push(row)) == match candidate_name_of(
            candidates,
            row.candidate_id,
        ) {
            Some(name) => names_of_rows(candidates, rows).push(name),
            None => names_of_rows(candidates, rows),
        },
{
    assert(rows.push(row).drop_last() =~= rows);
    match candidate_name_of(candidates, row.candidate_id) {
        Some(name) => {
            assert(names_of_rows(candidates, rows) + seq![name] =~= names_of_rows(
                candidates,
                rows,
            ).push(name));
        },
        None => {},
    }
}

/// Maps ranking rows to the names of their candidates.
pub fn name_rows(candidates: &Vec<Candidate>, rows: &Vec<Ranking>) -> (names: Vec<String>)
    ensures
        views(names@) == names_of_rows(views(candidates@), views(rows@)),
{
    let ghost known = views(candidates@);
    let ghost given = views(rows@);
    let mut names: Vec<String> = Vec::new();
    let mut i: usize = 0;
    assert(views(names@) =~= names_of_rows(known, given.take(0)));
    while i < rows.len()
        invariant
            i <= rows.len(),
            known == views(candidates@),
            given == views(rows@),
            views(names@) == names_of_rows(known, given.take(i as int)),
        decreases rows.len() - i,
    {
        let ghost so_far = views(names@);
        proof {
            lemma_names_of_rows_push(known, given.take(i as int), given[i as int]);
            assert(given.take(i as int + 1) =~= given.take(i as int).push(given[i as int]));
        }
        match find_candidate_name(candidates, rows[i].candidate_id) {
            Some(name) => {
                names.push(name);
                assert(views(names@) =~= so_far.push(name@));
            },
            None => {},
        }
        i += 1;
    }
    assert(given.take(i as int) =~= given);
    names
}

/// The test that a ranking row passes when it belongs to this ballot.
pub open spec fn of_ballot(ballot_id: Seq<char>) -> spec_fn(RankingView) -> bool {
    |r: RankingView| r.ballot_id == ballot_id
}

/// Whether `groups` splits `rows` by ballot: no two groups have the same
/// ballot id, each group holds the rows of its ballot in the order in which
/// they stand in `rows`, and every row's ballot has a group.
pub open spec fn is_grouping(groups: Seq<(String, Vec<Ranking>)>, rows: Seq<RankingView>) -> bool {
    &&& forall|i: int, j: int|
        0 <= i < j < groups.len() ==> (#[trigger] groups[i]).0@ != (#[trigger] groups[j]).0@
    &&& forall|i: int|
        0 <= i < groups.len() ==> views((#[trigger] groups[i]).1@) == rows.filter(
            of_ballot(groups[i].0@),
        )
    &&& forall|k: int|
        0 <= k < rows.len() ==> exists|i: int|
            0 <= i < groups.len() && (#[trigger] groups[i]).0@ == (#[trigger] rows[k]).ballot_id
}

/// Splits ranking rows by ballot with `Itertools::into_group_map_by`, keyed
/// by the rows' ballot ids, and hands the groups out as a vector, in the
/// order in which the map is walked. Claimed of it, whatever that order is:
/// one group per ballot id that occurs, holding the rows of that ballot in
/// the order in which they were given.
#[verifier::external_body]
pub(crate) fn group_by_ballot(rankings: Vec<Ranking>) -> (groups: Vec<(String, Vec<Ranking>)>)
    ensures
        is_grouping(groups@, views(rankings@)),
{
    rankings.into_iter().into_group_map_by(|r| r.ballot_id.clone()).into_iter().collect()
}

/// The rows of one ballot, out of the groups.
fn rows_of_ballot(
    groups: &Vec<(String, Vec<Ranking>)>,
    ballot_id: &String,
    Ghost(rows): Ghost<Seq<RankingView>>,
) -> (found: Vec<Ranking>)
    requires
        is_grouping(groups@, rows),
    ensures
        views(found@) == rows.filter(of_ballot(ballot_id@)),
{
    let mut i: usize = 0;
    while i < groups.len()
        invariant
            i <= groups.len(),
            is_grouping(groups@, rows),
            forall|k: int| 0 <= k < i ==> (#[trigger] groups[k]).0@ != ballot_id@,
        decreases groups.len() - i,
    {
        if groups[i].0 == *ballot_id {
            let found = groups[i].1.clone();
            assert(views(found@) =~= views(groups[i as int].1@));
            return found;
        }
        i += 1;
    }
    proof {
        lemma_filter_some(rows, of_ballot(ballot_id@));
        if rows.filter(of_ballot(ballot_id@)).len() > 0 {
            let k = choose|k: int| 0 <= k < rows.len() && of_ballot(ballot_id@)(#[trigger] rows[k]);
            let g = choose|g: int|
                0 <= g < groups.len() && (#[trigger] groups[g]).0@ == rows[k].ballot_id;
            assert(false);
        }
        assert(rows.filter(of_ballot(ballot_id@)) =~= Seq::empty());
    }
    Vec::new()
}

/// The names that a ballot ranks, best first: those of its ranking rows in
/// ascending order of position.
pub open spec fn ranked_names(
    candidates: Seq<CandidateView>,
    rankings: Seq<RankingView>,
    ballot_id: Seq<char>,
) -> Seq<Seq<char>> {
    names_of_rows(candidates, sort_by_position(rankings.filter(of_ballot(ballot_id))))
}

/// The summary of one ballot.
pub open spec fn summary_of(
    candidates: Seq<CandidateView>,
    rankings: Seq<RankingView>,
    ballot: BallotView,
) -> BallotSummaryView {
    BallotSummaryView {
        id: ballot.id,
        timestamp: ballot.timestamp,
        name: ballot.name,
        rankings: ranked_names(candidates, rankings, ballot.id),
    }
}

/// The summaries of the ballots, in the order of the ballots.
pub open spec fn summaries_of(
    candidates: Seq<CandidateView>,
    ballots: Seq<BallotView>,
    rankings: Seq<RankingView>,
) -> Seq<BallotSummaryView> {
    Seq::new(ballots.len(), |i: int| summary_of(candidates, rankings, ballots[i]))
}

/// Joins the candidates, ballots and ranking rows of one poll into one
/// summary per ballot.
pub fn summarize_ballots(
    candidates: &Vec<Candidate>,
    ballots: &Vec<Ballot>,
    rankings: Vec<Ranking>,
) -> (summaries: Vec<BallotSummary>)
    ensures
        views(summaries@) == summaries_of(views(candidates@), views(ballots@), views(rankings@)),
{
    let ghost known = views(candidates@);
    let ghost cast = views(ballots@);
    let ghost rows = views(rankings@);
    let groups = group_by_ballot(rankings);
    let mut summaries: Vec<BallotSummary> = Vec::new();
    let mut i: usize = 0;
    while i < ballots.len()
        invariant
            i <= ballots.len(),
            known == views(candidates@),
            cast == views(ballots@),
            is_grouping(groups@, rows),
            summaries.len() == i,
            forall|k: int|
                0 <= k < i ==> (#[trigger] summaries[k])@ == summary_of(known, rows, cast[k]),
        decreases ballots.len() - i,
    {
        let ballot = &ballots[i];
        let own = rows_of_ballot(&groups, &ballot.id, Ghost(rows));
        let sorted = sort_rankings(own);
        let names = name_rows(candidates, &sorted);
        summaries.push(
            BallotSummary {
                id: ballot.id.clone(),
                timestamp: ballot.timestamp,
                name: ballot.name.clone(),
                rankings: names,
            },
        );
        i += 1;
    }
    assert(views(summaries@) =~= summaries_of(known, cast, rows));
    summaries
}

/// Whether one of the ballots has this id.
pub open spec fn has_ballot(ballots: Seq<BallotView>, ballot_id: Seq<char>) -> bool {
    exists|i: int| 0 <= i < ballots.len() && (#[trigger] ballots[i]).id == ballot_id
}

/// Whether one of the ballots has this id.
pub fn is_listed(ballots: &Vec<Ballot>, ballot_id: &String) -> (listed: bool)
    ensures
        listed == has_ballot(views(ballots@), ballot_id@),
{
    let mut i: usize = 0;
    while i < ballots.len()
        invariant
            i <= ballots.len(),
            forall|k: int| 0 <= k < i ==> (#[trigger] views(ballots@)[k]).id != ballot_id@,
        decreases ballots.len() - i,
    {
        if ballots[i].id == *ballot_id {
            assert(views(ballots@)[i as int].id == ballot_id@);
            return true;
        }
        i += 1;
    }
    false
}

/// The test that a ranking row passes when a reader is shown nothing for
/// it: it belongs to one of the ballots, and its candidate is not known.
pub open spec fn passed_over(
    candidates: Seq<CandidateView>,
    ballots: Seq<BallotView>,
) -> spec_fn(RankingView) -> bool {
    |r: RankingView|
        has_ballot(ballots, r.ballot_id) && candidate_name_of(candidates, r.candidate_id).is_none()
}

/// The ranking rows for which a reader is shown nothing, in the order in
/// which they were given: those of the ballots whose candidate is not
/// known. A caller that keeps a log has them to report.
pub fn skipped_rows(
    candidates: &Vec<Candidate>,
    ballots: &Vec<Ballot>,
    rankings: &Vec<Ranking>,
) -> (skipped: Vec<Ranking>)
    ensures
        views(skipped@) == views(rankings@).filter(
            passed_over(views(candidates@), views(ballots@)),
        ),
{
    let ghost rows = views(rankings@);
    let ghost keep = passed_over(views(candidates@), views(ballots@));
    let mut skipped: Vec<Ranking> = Vec::new();
    let mut i: usize = 0;
    assert(views(skipped@) =~= rows.take(0).filter(keep)) by {
        reveal(Seq::filter);
    }
    while i < rankings.len()
        invariant
            i <= rankings.len(),
            rows == views(rankings@),
            keep == passed_over(views(candidates@), views(ballots@)),
            views(skipped@) == rows.take(i as int).filter(keep),
        decreases rankings.len() - i,
    {
        let ghost so_far = views(skipped@);
        proof {
            lemma_filter_push(rows.take(i as int), rows[i as int], keep);
            assert(rows.take(i as int + 1) =~= rows.take(i as int).push(rows[i as int]));
        }
        let row = &rankings[i];
        if is_listed(ballots, &row.ballot_id) && find_candidate_name(
            candidates,
            row.candidate_id,
        ).is_none() {
            skipped.push(row.clone());
            assert(views(skipped@) =~= so_far.push(rows[i as int]));
        }
        i += 1;
    }
    assert(rows.take(i as int) =~= rows);
    skipped
}

} // verus!
