//! From the names that a ballot ranks to the ranking rows that are stored.

use vstd::prelude::*;

use crate::db::state::{last_match, lemma_filter_push};
use crate::db::{Candidate, CandidateView, Ranking, RankingView};
use crate::operations::errors::{PutBallotError, PutBallotFault};
use crate::util::{first_index, lemma_first_index_is, occurs_before, seen_before, views};

verus! {

/// The test that a candidate passes when it has this name.
pub open spec fn named(name: Seq<char>) -> spec_fn(CandidateView) -> bool {
    |c: CandidateView| c.name == name
}

/// The id that a name stands for: that of the last candidate of this name.
pub open spec fn candidate_id_of(candidates: Seq<CandidateView>, name: Seq<char>) -> Option<i32> {
    match last_match(candidates, named(name)) {
        Some(c) => Some(c.id),
        None => None,
    }
}

/// Whether the name at index `i` is that of a candidate.
pub open spec fn resolves(candidates: Seq<CandidateView>, names: Seq<Seq<char>>, i: int) -> bool {
    candidate_id_of(candidates, names[i]).is_some()
}

/// Whether the name at index `i` gets a ranking row: it is that of a
/// candidate, no smaller index has the same name, and the index is a
/// position that a row can hold.
pub open spec fn placeable(candidates: Seq<CandidateView>, names: Seq<Seq<char>>, i: int) -> bool {
    resolves(candidates, names, i) && !occurs_before(names, i) && i <= i16::MAX
}

/// The test that an index passes when its name gets no ranking row.
pub open spec fn unplaceable(
    candidates: Seq<CandidateView>,
    names: Seq<Seq<char>>,
) -> spec_fn(int) -> bool {
    |i: int| !placeable(candidates, names, i)
}

/// How many names, from the left, get a ranking row before one does not.
pub open spec fn placed_count(candidates: Seq<CandidateView>, names: Seq<Seq<char>>) -> int {
    first_index(names.len() as int, unplaceable(candidates, names))
}

/// The ranking row of the name at index `i`: its position is `i`.
pub open spec fn ranking_row(
    candidates: Seq<CandidateView>,
    poll_id: Seq<char>,
    ballot_id: Seq<char>,
    names: Seq<Seq<char>>,
    i: int,
) -> RankingView {
    RankingView {
        ballot_id,
        poll_id,
        candidate_id: candidate_id_of(candidates, names[i]).unwrap(),
        ranking: i as i16,
    }
}

/// The ranking rows of the first `count` names.
pub open spec fn ranking_rows(
    candidates: Seq<CandidateView>,
    poll_id: Seq<char>,
    ballot_id: Seq<char>,
    names: Seq<Seq<char>>,
    count: int,
) -> Seq<RankingView> {
    Seq::new(count as nat, |i: int| ranking_row(candidates, poll_id, ballot_id, names, i))
}

/// Why the name at index `i` gets no ranking row: it is the name of no
/// candidate; or else a smaller index ranks the same name; or else the
/// position is too large for a row.
pub open spec fn fault_at(
    candidates: Seq<CandidateView>,
    names: Seq<Seq<char>>,
    i: int,
) -> PutBallotFault {
    if !resolves(candidates, names, i) {
        PutBallotFault::CandidateNotFound(names[i])
    } else if occurs_before(names, i) {
        PutBallotFault::DuplicateRanking(names[i])
    } else {
        PutBallotFault::Unexpected
    }
}

/// Why the names cannot all be resolved: the fault of the first name that
/// gets no ranking row. `None` when every name gets one.
pub open spec fn resolution_fault(
    candidates: Seq<CandidateView>,
    names: Seq<Seq<char>>,
) -> Option<PutBallotFault> {
    let count = placed_count(candidates, names);
    if count < names.len() {
        Some(fault_at(candidates, names, count))
    } else {
        None
    }
}

/// Looks a name up among the candidates.
pub fn find_candidate_id(candidates: &Vec<Candidate>, name: &String) -> (found: Option<i32>)
    ensures
        found == candidate_id_of(views(candidates@), name@),
{
    let ghost keep = named(name@);
    let ghost rows = views(candidates@);
    let mut found: Option<i32> = None;
    let mut i: usize = 0;
    assert(rows.take(0).filter(keep) =~= Seq::empty()) by {
        reveal(Seq::filter);
    }
    while i < candidates.len()
        invariant
            i <= candidates.len(),
            rows == views(candidates@),
            keep == named(name@),
            found == candidate_id_of(rows.take(i as int), name@),
        decreases candidates.len() - i,
    {
        proof {
            lemma_filter_push(rows.take(i as int), rows[i as int], keep);
            assert(rows.take(i as int + 1) =~= rows.take(i as int).push(rows[i as int]));
        }
        if candidates[i].name == *name {
            found = Some(candidates[i].id);
        }
        i += 1;
    }
    assert(rows.take(i as int) =~= rows);
    found
}

/// Resolves the name at index `i` of a ballot's rankings to its ranking row.
pub fn resolve_ranking(
    candidates: &Vec<Candidate>,
    poll_id: &str,
    ballot_id: &str,
    rankings: &Vec<String>,
    i: usize,
) -> (result: Result<Ranking, PutBallotError>)
    requires
        i < rankings.len(),
    ensures
        result.is_ok() == placeable(views(candidates@), views(rankings@), i as int),
        result.is_ok() ==> result.unwrap()@ == ranking_row(
            views(candidates@),
            poll_id@,
            ballot_id@,
            views(rankings@),
            i as int,
        ),
        result.is_err() ==> result.unwrap_err()@ == fault_at(
            views(candidates@),
            views(rankings@),
            i as int,
        ),
{
    let name = &rankings[i];
    assert(name@ == views(rankings@)[i as int]);
    match find_candidate_id(candidates, name) {
        None => Err(PutBallotError::CandidateNotFound(name.clone())),
        Some(candidate_id) => {
            if seen_before(rankings, i, name) {
                Err(PutBallotError::DuplicateRanking(name.clone()))
            } else if i > 32767 {
                Err(PutBallotError::Unexpected)
            } else {
                Ok(
                    Ranking {
                        ballot_id: ballot_id.to_owned(),
                        poll_id: poll_id.to_owned(),
                        candidate_id,
                        ranking: i as i16,
                    },
                )
            }
        },
    }
}

/// Resolves a ballot's rankings to its ranking rows, the position of each
/// being its index. Fails at the first name that gets no row.
pub fn resolve_rankings(
    candidates: &Vec<Candidate>,
    poll_id: &str,
    ballot_id: &str,
    rankings: &Vec<String>,
) -> (result: Result<Vec<Ranking>, PutBallotError>)
    ensures
        result.is_ok() == resolution_fault(views(candidates@), views(rankings@)).is_none(),
        result.is_ok() ==> views(result.unwrap()@) == ranking_rows(
            views(candidates@),
            poll_id@,
            ballot_id@,
            views(rankings@),
            rankings.len() as int,
        ),
        result.is_err() ==> Some(result.unwrap_err()@) == resolution_fault(
            views(candidates@),
            views(rankings@),
        ),
{
    let ghost known = views(candidates@);
    let ghost names = views(rankings@);
    let ghost bad = unplaceable(known, names);
    let mut rows: Vec<Ranking> = Vec::new();
    let mut i: usize = 0;
    assert(views(rows@) =~= ranking_rows(known, poll_id@, ballot_id@, names, 0));
    while i < rankings.len()
        invariant
            i <= rankings.len(),
            known == views(candidates@),
            names == views(rankings@),
            bad == unplaceable(known, names),
            forall|k: int| 0 <= k < i ==> !#[trigger] bad(k),
            views(rows@) == ranking_rows(known, poll_id@, ballot_id@, names, i as int),
        decreases rankings.len() - i,
    {
        match resolve_ranking(candidates, poll_id, ballot_id, rankings, i) {
            Err(e) => {
                proof {
                    assert(bad(i as int));
                    lemma_first_index_is(names.len() as int, bad, i as int);
                }
                return Err(e);
            },
            Ok(row) => {
                assert(!bad(i as int));
                let ghost so_far = views(rows@);
                rows.push(row);
                assert(views(rows@) =~= so_far.push(row@));
                assert(so_far.push(row@) =~= ranking_rows(
                    known,
                    poll_id@,
                    ballot_id@,
                    names,
                    i as int + 1,
                ));
            },
        }
        i += 1;
    }
    proof {
        lemma_first_index_is(names.len() as int, bad, names.len() as int);
    }
    Ok(rows)
}

} // verus!
