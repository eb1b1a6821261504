//! Creating a poll, adding a write-in candidate, and reading a poll.

use vstd::prelude::*;

use crate::clock::current_time;
use crate::db::state::{
    accepted_count, candidate_accepted, candidate_in, candidate_refused, lemma_filter_push,
    lemma_filter_some, names_of, poll_with_id, with_candidates,
};
use crate::db::{PollView, State};
use crate::ident::{is_poll_id, new_poll_id};
use crate::model::{
    Candidate, CandidateView, Configuration, GetPollResponse, GetPollResponseView, Identity,
    PostPollRequest, PostPollResponse, Timestamp, POLL_LIFETIME_MICROS,
};
use crate::operations::aggregate::{summaries_of, summarize_ballots};
use crate::operations::errors::{
    write_in_failure, GetPollError, PostCandidateError, PostCandidateFault, PostPollError,
    PostPollFault,
};
use crate::operations::PollOperations;
use crate::theorems::lemma_more_candidates_keep_rankings_consistent;
use crate::util::{
    first_duplicate, first_duplicate_of, lemma_first_duplicate_none, lemma_first_index, text_of,
    views,
};

verus! {

/// A stored candidate as callers see it: without its id.
pub open spec fn shown(candidate: crate::db::CandidateView) -> CandidateView {
    CandidateView { name: candidate.name, description: candidate.description }
}

/// The stored candidates as callers see them.
pub open spec fn shown_candidates(candidates: Seq<crate::db::CandidateView>) -> Seq<CandidateView> {
    Seq::new(candidates.len(), |i: int| shown(candidates[i]))
}

/// Strips the ids off stored candidates.
pub fn show_candidates(candidates: &Vec<crate::db::Candidate>) -> (listed: Vec<Candidate>)
    ensures
        views(listed@) == shown_candidates(views(candidates@)),
{
    let mut listed: Vec<Candidate> = Vec::new();
    let mut i: usize = 0;
    while i < candidates.len()
        invariant
            i <= candidates.len(),
            listed.len() == i,
            forall|k: int| 0 <= k < i ==> (#[trigger] listed[k])@ == shown(candidates[k]@),
        decreases candidates.len() - i,
    {
        listed.push(
            Candidate {
                name: candidates[i].name.clone(),
                description: candidates[i].description.clone(),
            },
        );
        i += 1;
    }
    assert(views(listed@) =~= shown_candidates(views(candidates@)));
    listed
}

/// What a reader is shown of a poll that the store holds: its header, its
/// candidates in the order in which they were added, and one summary per
/// ballot in the order in which the ballots were first cast.
pub open spec fn poll_shown(state: State, id: Seq<char>) -> GetPollResponseView {
    poll_joined(
        state.poll(id).unwrap(),
        state.candidates_of(id),
        state.ballots_of(id),
        state.rankings_of(id),
    )
}

/// The names of the candidates, in their order.
pub fn candidate_names(candidates: &Vec<Candidate>) -> (names: Vec<String>)
    ensures
        views(names@) == names_of(views(candidates@)),
{
    let mut names: Vec<String> = Vec::new();
    let mut i: usize = 0;
    while i < candidates.len()
        invariant
            i <= candidates.len(),
            names.len() == i,
            forall|k: int| 0 <= k < i ==> (#[trigger] names[k])@ == candidates[k].name@,
        decreases candidates.len() - i,
    {
        names.push(candidates[i].name.clone());
        i += 1;
    }
    assert(views(names@) =~= names_of(views(candidates@)));
    names
}

/// The header row of a poll that is created at the moment `now`: it expires
/// seven days later and has no closing time.
pub open spec fn poll_row_of(
    poll_id: Seq<char>,
    identity: Identity,
    request: PostPollRequest,
    now: Timestamp,
) -> PollView {
    PollView {
        id: poll_id,
        name: request.name@,
        description: text_of(request.description),
        owner_id: identity.token(),
        expires: Timestamp { micros: (now.micros + POLL_LIFETIME_MICROS) as i64 },
        close: None,
        write_ins: request.configuration.write_ins,
    }
}

/// Why a poll is not created: two candidates of one name, before anything is
/// read; then an expiry past the last moment that a timestamp holds, a poll
/// id that the store holds already, or too few candidate ids left. `None`
/// when it is created.
pub open spec fn post_poll_fault(
    state: State,
    poll_id: Seq<char>,
    candidates: Seq<CandidateView>,
    now: Timestamp,
) -> Option<PostPollFault> {
    if first_duplicate_of(names_of(candidates)).is_some() {
        Some(PostPollFault::DuplicateCandidate(first_duplicate_of(names_of(candidates)).unwrap()))
    } else if now.micros + POLL_LIFETIME_MICROS > i64::MAX {
        Some(PostPollFault::Unexpected)
    } else if state.poll(poll_id).is_some() {
        Some(PostPollFault::Unexpected)
    } else if state.next_candidate_id + candidates.len() > i32::MAX {
        Some(PostPollFault::Unexpected)
    } else {
        None
    }
}

/// What creating a poll under the id `poll_id` at the moment `now` answers
/// and does to the store: a request that is refused leaves the store as it
/// was.
pub open spec fn post_poll_outcome(
    before: State,
    after: State,
    result: Result<PostPollResponse, PostPollError>,
    poll_id: Seq<char>,
    identity: Identity,
    request: PostPollRequest,
    now: Timestamp,
) -> bool {
    match result {
        Ok(response) => post_poll_fault(before, poll_id, views(request.candidates@), now).is_none()
            && after == post_poll_state(
            before,
            poll_row_of(poll_id, identity, request, now),
            views(request.candidates@),
        ) && response@ == poll_created(poll_row_of(poll_id, identity, request, now), request),
        Err(e) => post_poll_fault(before, poll_id, views(request.candidates@), now) == Some(e@)
            && after == before,
    }
}

/// The store after a poll was created.
pub open spec fn post_poll_state(
    state: State,
    row: PollView,
    candidates: Seq<CandidateView>,
) -> State {
    with_candidates(state.with_poll(row), row.id, candidates, candidates.len() as int)
}

/// What the creator of a poll is shown.
pub open spec fn poll_created(row: PollView, request: PostPollRequest) -> crate::model::PollView {
    crate::model::PollView {
        id: row.id,
        name: row.name,
        description: row.description,
        expires: row.expires,
        close: None,
        candidates: views(request.candidates@),
        configuration: request.configuration,
    }
}

/// Why a write-in candidate is not added: a poll that the store does not
/// hold; then a poll that takes no write-ins; then a name that the poll has
/// already; then no candidate id left. `None` when it is added.
pub open spec fn post_candidate_fault(
    state: State,
    poll_id: Seq<char>,
    name: Seq<char>,
) -> Option<PostCandidateFault> {
    if state.poll(poll_id).is_none() {
        Some(PostCandidateFault::PollNotFound)
    } else if !state.poll(poll_id).unwrap().write_ins {
        Some(PostCandidateFault::NoWriteIns)
    } else if state.has_candidate_named(poll_id, name) {
        Some(PostCandidateFault::DuplicateCandidate(name))
    } else if state.next_candidate_id == i32::MAX {
        Some(PostCandidateFault::Unexpected)
    } else {
        None
    }
}

/// The header row of a poll that is created at the moment `now`, unless no
/// timestamp holds its expiry.
pub fn new_poll_row(
    poll_id: &str,
    identity: &Identity,
    request: &PostPollRequest,
    now: Timestamp,
) -> (result: Result<crate::db::Poll, PostPollError>)
    ensures
        match result {
            Ok(row) => now.micros + POLL_LIFETIME_MICROS <= i64::MAX && row@ == poll_row_of(
                poll_id@,
                *identity,
                *request,
                now,
            ),
            Err(e) => now.micros + POLL_LIFETIME_MICROS > i64::MAX && e@
                == PostPollFault::Unexpected,
        },
{
    if now.micros > i64::MAX - POLL_LIFETIME_MICROS {
        return Err(PostPollError::Unexpected);
    }
    let owner_id = match identity {
        Identity::SecretKey(key) => key,
    };
    Ok(
        crate::db::Poll {
            id: poll_id.to_owned(),
            name: request.name.clone(),
            description: request.description.clone(),
            owner_id: owner_id.clone(),
            expires: Timestamp { micros: now.micros + POLL_LIFETIME_MICROS },
            close: None,
            write_ins: request.configuration.write_ins,
        },
    )
}

/// What the creator of a poll is shown, once the poll's row and the
/// request's candidates are written.
pub fn created_poll(row: crate::db::Poll, request: &PostPollRequest) -> (response: PostPollResponse)
    ensures
        response@ == poll_created(row@, *request),
{
    PostPollResponse {
        poll: crate::model::Poll {
            id: row.id,
            name: row.name,
            description: row.description,
            expires: row.expires,
            close: None,
            candidates: request.candidates.clone(),
            configuration: request.configuration,
        },
    }
}

/// What a reader is shown of a poll, given its header row and its
/// candidates, ballots and ranking rows.
pub open spec fn poll_joined(
    row: PollView,
    candidates: Seq<crate::db::CandidateView>,
    ballots: Seq<crate::db::BallotView>,
    rankings: Seq<crate::db::RankingView>,
) -> GetPollResponseView {
    GetPollResponseView {
        poll: crate::model::PollView {
            id: row.id,
            name: row.name,
            description: row.description,
            expires: row.expires,
            close: row.close,
            candidates: shown_candidates(candidates),
            configuration: Configuration { write_ins: row.write_ins },
        },
        ballots: summaries_of(candidates, ballots, rankings),
    }
}

/// Joins a poll's header row with its candidates, ballots and ranking rows
/// into what a reader is shown.
pub fn join_poll(
    row: crate::db::Poll,
    candidates: &Vec<crate::db::Candidate>,
    ballots: &Vec<crate::db::Ballot>,
    rankings: Vec<crate::db::Ranking>,
) -> (response: GetPollResponse)
    ensures
        response@ == poll_joined(row@, views(candidates@), views(ballots@), views(rankings@)),
{
    let summaries = summarize_ballots(candidates, ballots, rankings);
    let listed = show_candidates(candidates);
    GetPollResponse {
        poll: crate::model::Poll {
            id: row.id,
            name: row.name,
            description: row.description,
            candidates: listed,
            expires: row.expires,
            close: row.close,
            configuration: Configuration { write_ins: row.write_ins },
        },
        ballots: summaries,
    }
}

/// Whether one of the candidates has this name.
pub open spec fn has_name(candidates: Seq<crate::db::CandidateView>, name: Seq<char>) -> bool {
    exists|i: int| 0 <= i < candidates.len() && (#[trigger] candidates[i]).name == name
}

/// A poll has a candidate of a name exactly when one of its candidates, as
/// they are read from the store, has that name.
pub proof fn lemma_has_name(state: State, poll_id: Seq<char>, name: Seq<char>)
    ensures
        has_name(state.candidates_of(poll_id), name) == state.has_candidate_named(poll_id, name),
{
    let keep = candidate_in(poll_id);
    let kept = state.candidates.filter(keep);
    let known = state.candidates_of(poll_id);
    lemma_filter_some(state.candidates, keep);
    if has_name(known, name) {
        let i = choose|i: int| 0 <= i < known.len() && (#[trigger] known[i]).name == name;
        assert(known[i] == kept[i].candidate);
        assert(keep(kept[i]));
        assert(state.candidates.contains(kept[i]));
        let t = choose|t: int| 0 <= t < state.candidates.len() && state.candidates[t] == kept[i];
        assert(state.candidates[t].poll_id == poll_id);
    }
    if state.has_candidate_named(poll_id, name) {
        let t = choose|t: int|
            0 <= t < state.candidates.len() && (#[trigger] state.candidates[t]).poll_id == poll_id
                && state.candidates[t].candidate.name == name;
        assert(keep(state.candidates[t]));
        state.candidates.lemma_filter_contains(keep, t);
        let i = choose|i: int| 0 <= i < kept.len() && kept[i] == state.candidates[t];
        assert(known[i].name == name);
    }
}

/// Why the poll that was found takes no write-in: none was found, or it
/// takes none. `None` when it takes them.
pub open spec fn write_in_poll_fault(found: Option<PollView>) -> Option<PostCandidateFault> {
    match found {
        None => Some(PostCandidateFault::PollNotFound),
        Some(poll) => if !poll.write_ins {
            Some(PostCandidateFault::NoWriteIns)
        } else {
            None
        },
    }
}

/// Hands the poll on if it was found and takes write-ins.
pub fn write_in_poll(found: Option<crate::db::Poll>) -> (result: Result<
    crate::db::Poll,
    PostCandidateError,
>)
    ensures
        match result {
            Ok(poll) => found == Some(poll) && write_in_poll_fault(Some(poll@)).is_none(),
            Err(e) => write_in_poll_fault(
                match found {
                    Some(poll) => Some(poll@),
                    None => None,
                },
            ) == Some(e@),
        },
{
    match found {
        None => Err(PostCandidateError::PollNotFound),
        Some(poll) => {
            if !poll.write_ins {
                Err(PostCandidateError::NoWriteIns)
            } else {
                Ok(poll)
            }
        },
    }
}

/// Refuses a write-in whose name one of the poll's candidates has already.
pub fn check_write_in_name(candidates: &Vec<crate::db::Candidate>, request: &Candidate) -> (result:
    Result<(), PostCandidateError>)
    ensures
        match result {
            Ok(()) => !has_name(views(candidates@), request.name@),
            Err(e) => has_name(views(candidates@), request.name@) && e@
                == PostCandidateFault::DuplicateCandidate(request.name@),
        },
{
    let mut i: usize = 0;
    while i < candidates.len()
        invariant
            i <= candidates.len(),
            forall|k: int| 0 <= k < i ==> (#[trigger] views(candidates@)[k]).name != request.name@,
        decreases candidates.len() - i,
    {
        if candidates[i].name == request.name {
            assert(views(candidates@)[i as int].name == request.name@);
            return Err(PostCandidateError::DuplicateCandidate(request.name.clone()));
        }
        i += 1;
    }
    Ok(())
}

impl PollOperations {
    /// Reads a poll: its header, its candidates and its ballots, each ballot
    /// with the names that it ranks, best first.
    pub fn get_poll(&self, id: &str) -> (result: Result<GetPollResponse, GetPollError>)
        ensures
            match result {
                Ok(response) => self@.poll(id@).is_some() && response@ == poll_shown(self@, id@),
                Err(e) => self@.poll(id@).is_none() && e == GetPollError::NotFound,
            },
    {
        let tx = self.db.new_transaction();
        let poll = match tx.select_poll(id) {
            None => {
                return Err(GetPollError::NotFound);
            },
            Some(poll) => poll,
        };
        let candidates = tx.select_candidates(id);
        let ballots = tx.select_ballots(id);
        let rankings = tx.select_rankings(id);
        Ok(join_poll(poll, &candidates, &ballots, rankings))
    }

    /// Creates a poll under the id `poll_id` at the moment `now`, with the
    /// request's candidates in their order; it expires seven days later.
    ///
    /// A request in which two candidates share a name is refused before the
    /// store is read. A poll whose expiry no timestamp holds is not created.
    /// The store refuses a poll id that it holds already. A refused request
    /// leaves the store as it was.
    pub fn post_poll_at(
        &mut self,
        identity: &Identity,
        request: &PostPollRequest,
        poll_id: &str,
        now: Timestamp,
    ) -> (result: Result<PostPollResponse, PostPollError>)
        ensures
            post_poll_outcome(old(self)@, final(self)@, result, poll_id@, *identity, *request, now),
            final(self)@.wf(),
            old(self)@.rankings_consistent() ==> final(self)@.rankings_consistent(),
    {
        proof {
            use_type_invariant(&self.db);
        }
        let names = candidate_names(&request.candidates);
        match first_duplicate(&names) {
            Some(duplicate) => {
                return Err(PostPollError::DuplicateCandidate(duplicate));
            },
            None => {},
        }
        let poll = match new_poll_row(poll_id, identity, request, now) {
            Err(e) => {
                return Err(e);
            },
            Ok(poll) => poll,
        };
        let mut tx = self.db.new_transaction();
        let ghost before = self@;
        let ghost row = poll_row_of(poll_id@, *identity, *request, now);
        let ghost given = views(request.candidates@);
        assert(poll@ == row);
        match tx.insert_poll(&poll) {
            Err(_) => {
                return Err(PostPollError::Unexpected);
            },
            Ok(()) => {},
        }
        let ghost base = before.with_poll(row);
        let ghost names = names_of(given);
        let ghost refused = candidate_refused(base, poll_id@, names);
        proof {
            lemma_filter_push(before.polls, row, poll_with_id(poll_id@));
            lemma_filter_some(before.polls, poll_with_id(poll_id@));
            lemma_first_duplicate_none(names);
            lemma_first_index(names.len() as int, refused);
            assert forall|k: int| 0 <= k < names.len() implies candidate_accepted(
                base,
                poll_id@,
                names,
                k,
            ) == (base.next_candidate_id + k < i32::MAX) by {
                if base.has_candidate_named(poll_id@, names[k]) {
                    let j = choose|j: int|
                        0 <= j < base.candidates.len() && (#[trigger] base.candidates[j]).poll_id
                            == poll_id@ && base.candidates[j].candidate.name == names[k];
                    assert(before.poll(before.candidates[j].poll_id).is_some());
                }
            }
            let count = accepted_count(base, poll_id@, names);
            if count < names.len() {
                assert(refused(count));
            } else if names.len() > 0 {
                assert(!refused(names.len() - 1));
            }
        }
        match tx.insert_candidates(poll_id, &request.candidates) {
            Err(_) => {
                return Err(PostPollError::Unexpected);
            },
            Ok(()) => {},
        }
        proof {
            if before.rankings_consistent() {
                lemma_more_candidates_keep_rankings_consistent(before, tx@);
            }
        }
        tx.commit(&mut self.db);
        Ok(created_poll(poll, request))
    }

    /// Creates a poll now, under a fresh random id: [`Self::post_poll_at`]
    /// with an id of ten letters and digits and the moment that the clock
    /// shows. A request in which two candidates share a name is refused
    /// whatever was drawn and read.
    pub fn post_poll(&mut self, identity: &Identity, request: &PostPollRequest) -> (result: Result<
        PostPollResponse,
        PostPollError,
    >)
        ensures
            exists|poll_id: Seq<char>, now: Timestamp|
                is_poll_id(poll_id) && #[trigger] post_poll_outcome(
                    old(self)@,
                    final(self)@,
                    result,
                    poll_id,
                    *identity,
                    *request,
                    now,
                ),
            first_duplicate_of(names_of(views(request.candidates@))).is_some() <==> result.is_err()
                && result.unwrap_err()@ == PostPollFault::DuplicateCandidate(
                first_duplicate_of(names_of(views(request.candidates@))).unwrap(),
            ),
            result.is_ok() ==> is_poll_id(result.unwrap()@.id),
            final(self)@.wf(),
            old(self)@.rankings_consistent() ==> final(self)@.rankings_consistent(),
    {
        let poll_id = new_poll_id();
        let now = current_time();
        self.post_poll_at(identity, request, poll_id.as_str(), now)
    }

    /// Adds a write-in candidate to a poll that takes them. A refused request
    /// leaves the store as it was.
    pub fn post_candidate(
        &mut self,
        poll_id: &str,
        request: &Candidate,
    ) -> (result: Result<(), PostCandidateError>)
        ensures
            match result {
                Ok(()) => post_candidate_fault(old(self)@, poll_id@, request.name@).is_none()
                    && final(self)@ == old(self)@.with_candidate(
                    poll_id@,
                    request.name@,
                    text_of(request.description),
                ),
                Err(e) => post_candidate_fault(old(self)@, poll_id@, request.name@) == Some(e@)
                    && final(self)@ == old(self)@,
            },
            final(self)@.wf(),
            old(self)@.rankings_consistent() ==> final(self)@.rankings_consistent(),
    {
        proof {
            use_type_invariant(&self.db);
        }
        let mut tx = self.db.new_transaction();
        match write_in_poll(tx.select_poll(poll_id)) {
            Err(e) => {
                return Err(e);
            },
            Ok(_) => {},
        }
        let existing_candidates = tx.select_candidates(poll_id);
        proof {
            lemma_has_name(tx@, poll_id@, request.name@);
        }
        match check_write_in_name(&existing_candidates, request) {
            Err(e) => {
                return Err(e);
            },
            Ok(()) => {},
        }
        match tx.insert_candidate(poll_id, request.name.as_str(), &request.description) {
            Err(refusal) => {
                return Err(write_in_failure(refusal, &request.name));
            },
            Ok(()) => {},
        }
        proof {
            if old(self)@.rankings_consistent() {
                lemma_more_candidates_keep_rankings_consistent(old(self)@, tx@);
            }
        }
        tx.commit(&mut self.db);
        Ok(())
    }
}

} // verus!
