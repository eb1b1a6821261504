use pickypoll::db::{Ballot, Candidate, PickyDb, Ranking};
use pickypoll::model::{BallotSummary, Identity, PutBallotRequest, Timestamp};
use pickypoll::operations::aggregate::{
    find_candidate_name, is_listed, name_rows, skipped_rows, sort_rankings, summarize_ballots,
};
use pickypoll::operations::ballots::{decide_ballot_write, poll_to_vote_in, BallotWrite};
use pickypoll::operations::polls::{
    candidate_names, check_write_in_name, show_candidates, write_in_poll,
};
use pickypoll::operations::resolver::{find_candidate_id, resolve_ranking, resolve_rankings};
use pickypoll::operations::{PollOperations, PostCandidateError, PutBallotError};
use pickypoll::util::seen_before;

fn stored(id: i32, name: &str) -> Candidate {
    Candidate { id, name: name.to_string(), description: None }
}

fn desserts() -> Vec<Candidate> {
    vec![stored(11, "cookies"), stored(12, "cake"), stored(13, "ice cream")]
}

fn row(ballot_id: &str, candidate_id: i32, position: i16) -> Ranking {
    Ranking {
        ballot_id: ballot_id.to_string(),
        poll_id: "p".to_string(),
        candidate_id,
        ranking: position,
    }
}

fn cast(id: &str, name: &str, micros: i64) -> Ballot {
    Ballot {
        id: id.to_string(),
        name: name.to_string(),
        timestamp: Timestamp { micros },
        owner_id: "owner of ".to_string() + id,
    }
}

fn texts(list: &[&str]) -> Vec<String> {
    list.iter().map(|r| r.to_string()).collect()
}

fn summary(id: &str, name: &str, micros: i64, rankings: &[&str]) -> (String, String, i64, Vec<String>) {
    (id.to_string(), name.to_string(), micros, texts(rankings))
}

fn told(summaries: Vec<BallotSummary>) -> Vec<(String, String, i64, Vec<String>)> {
    summaries.into_iter().map(|s| (s.id, s.name, s.timestamp.micros, s.rankings)).collect()
}

#[test]
fn stored_positions_decide_the_order_shown() {
    let ballots = vec![cast("b1", "Alice", 5)];
    let rankings = vec![row("b1", 12, 0), row("b1", 11, 1)];
    assert_eq!(
        told(summarize_ballots(&desserts(), &ballots, rankings)),
        vec![summary("b1", "Alice", 5, &["cake", "cookies"])]
    );
}

#[test]
fn rows_out_of_order_are_shown_by_position() {
    let ballots = vec![cast("b1", "Alice", 5), cast("b2", "Bob", 6), cast("b3", "Carol", 7)];
    let rankings = vec![
        row("b2", 13, 2),
        row("b1", 11, 1),
        row("b2", 11, 0),
        row("b1", 12, 0),
        row("b2", 12, 1),
    ];
    assert_eq!(
        told(summarize_ballots(&desserts(), &ballots, rankings)),
        vec![
            summary("b1", "Alice", 5, &["cake", "cookies"]),
            summary("b2", "Bob", 6, &["cookies", "cake", "ice cream"]),
            summary("b3", "Carol", 7, &[]),
        ]
    );
}

#[test]
fn a_row_of_an_unknown_candidate_is_passed_over() {
    let ballots = vec![cast("b1", "Alice", 5)];
    let rankings = vec![row("b1", 12, 0), row("b1", 99, 1), row("b1", 11, 2)];
    assert_eq!(
        told(summarize_ballots(&desserts(), &ballots, rankings)),
        vec![summary("b1", "Alice", 5, &["cake", "cookies"])]
    );
}

#[test]
fn rows_of_ballots_that_are_not_listed_are_left_out() {
    let ballots = vec![cast("b2", "Bob", 6)];
    let rankings = vec![row("b1", 12, 0), row("b2", 13, 0), row("b3", 11, 0)];
    assert_eq!(
        told(summarize_ballots(&desserts(), &ballots, rankings)),
        vec![summary("b2", "Bob", 6, &["ice cream"])]
    );
    assert!(summarize_ballots(&desserts(), &vec![], vec![row("b1", 12, 0)]).is_empty());
    assert_eq!(
        told(summarize_ballots(&desserts(), &ballots, vec![])),
        vec![summary("b2", "Bob", 6, &[])]
    );
}

#[test]
fn sorting_keeps_rows_of_one_position_in_their_order() {
    let rows = vec![row("b", 1, 2), row("b", 2, 0), row("b", 3, 2), row("b", 4, -1), row("b", 5, 0)];
    assert_eq!(
        sort_rankings(rows),
        vec![row("b", 4, -1), row("b", 2, 0), row("b", 5, 0), row("b", 1, 2), row("b", 3, 2)]
    );
    assert!(sort_rankings(vec![]).is_empty());
    assert_eq!(sort_rankings(vec![row("b", 1, 7)]), vec![row("b", 1, 7)]);
}

#[test]
fn the_last_candidate_of_an_id_or_a_name_is_found() {
    let candidates = vec![stored(1, "cake"), stored(2, "pie"), stored(1, "tart"), stored(3, "pie")];
    assert_eq!(find_candidate_name(&candidates, 1), Some("tart".to_string()));
    assert_eq!(find_candidate_name(&candidates, 2), Some("pie".to_string()));
    assert_eq!(find_candidate_name(&candidates, 4), None);
    assert_eq!(find_candidate_id(&candidates, &"pie".to_string()), Some(3));
    assert_eq!(find_candidate_id(&candidates, &"cake".to_string()), Some(1));
    assert_eq!(find_candidate_id(&candidates, &"flan".to_string()), None);
    assert_eq!(find_candidate_id(&vec![], &"cake".to_string()), None);
}

#[test]
fn rows_are_named_in_their_order() {
    let rows = vec![row("b", 13, 5), row("b", 7, 1), row("b", 11, 0), row("b", 13, 9)];
    assert_eq!(name_rows(&desserts(), &rows), texts(&["ice cream", "cookies", "ice cream"]));
    assert!(name_rows(&desserts(), &vec![]).is_empty());
    assert!(name_rows(&vec![], &rows).is_empty());
}

#[test]
fn stored_candidates_are_shown_without_ids() {
    let candidates = vec![
        Candidate { id: 4, name: "cake".to_string(), description: Some("sweet".to_string()) },
        stored(9, "pie"),
    ];
    let shown = show_candidates(&candidates);
    assert_eq!(
        shown,
        vec![
            pickypoll::model::Candidate {
                name: "cake".to_string(),
                description: Some("sweet".to_string())
            },
            pickypoll::model::Candidate { name: "pie".to_string(), description: None },
        ]
    );
    assert_eq!(candidate_names(&shown), texts(&["cake", "pie"]));
}

#[test]
fn names_are_resolved_to_rows_with_their_index_as_position() {
    let rows = resolve_rankings(&desserts(), "p", "b1", &texts(&["ice cream", "cookies"]))
        .expect("both are candidates");
    assert_eq!(rows, vec![row("b1", 13, 0), row("b1", 11, 1)]);
    assert_eq!(resolve_rankings(&desserts(), "p", "b1", &vec![]), Ok(vec![]));
    assert_eq!(
        resolve_ranking(&desserts(), "p", "b1", &texts(&["ice cream", "cookies"]), 1),
        Ok(row("b1", 11, 1))
    );
}

#[test]
fn the_first_name_that_cannot_be_resolved_is_reported() {
    assert_eq!(
        resolve_rankings(&desserts(), "p", "b1", &texts(&["cake", "flan", "tart"])),
        Err(PutBallotError::CandidateNotFound("flan".to_string()))
    );
    assert_eq!(
        resolve_ranking(&desserts(), "p", "b1", &texts(&["cake", "flan", "tart"]), 2),
        Err(PutBallotError::CandidateNotFound("tart".to_string()))
    );
}

#[test]
fn a_candidate_that_is_ranked_twice_is_a_duplicate_ranking() {
    assert_eq!(
        resolve_rankings(&desserts(), "p", "b1", &texts(&["cake", "cake"])),
        Err(PutBallotError::DuplicateRanking("cake".to_string()))
    );
    assert_eq!(
        resolve_rankings(&desserts(), "p", "b1", &texts(&["cake", "cookies", "cake", "flan"])),
        Err(PutBallotError::DuplicateRanking("cake".to_string()))
    );
    assert_eq!(
        resolve_ranking(&desserts(), "p", "b1", &texts(&["cake", "cookies", "cake"]), 2),
        Err(PutBallotError::DuplicateRanking("cake".to_string()))
    );
    // A name that is no candidate is not found, however often it is ranked.
    assert_eq!(
        resolve_ranking(&desserts(), "p", "b1", &texts(&["flan", "cake", "flan"]), 2),
        Err(PutBallotError::CandidateNotFound("flan".to_string()))
    );
    assert_eq!(
        resolve_rankings(&desserts(), "p", "b1", &texts(&["cookies", "flan", "flan"])),
        Err(PutBallotError::CandidateNotFound("flan".to_string()))
    );
}

#[test]
fn insert_rankings_refuses_a_candidate_that_is_ranked_twice() {
    let db = PickyDb::new();
    let ops = PollOperations::new(PickyDb::new());
    let mut tx = db.new_transaction();
    tx.insert_poll(&header(false)).unwrap();
    tx.insert_candidate("p", "cake", &None).unwrap();
    assert_eq!(
        ops.insert_rankings(&mut tx, "p", "b1", &texts(&["cake", "cake"])),
        Err(PutBallotError::DuplicateRanking("cake".to_string()))
    );
    assert_eq!(tx.select_rankings("p"), vec![row("b1", 1, 0)]);
}

#[test]
fn a_position_past_the_largest_is_unexpected() {
    let mut candidates: Vec<Candidate> = Vec::new();
    let mut rankings: Vec<String> = Vec::new();
    for i in 0..32769 {
        candidates.push(stored(i, &format!("c{}", i)));
        rankings.push(format!("c{}", i));
    }
    assert_eq!(
        resolve_ranking(&candidates, "p", "b", &rankings, 32767),
        Ok(row("b", 32767, 32767))
    );
    assert_eq!(
        resolve_ranking(&candidates, "p", "b", &rankings, 32768),
        Err(PutBallotError::Unexpected)
    );
    rankings[32768] = "nobody".to_string();
    assert_eq!(
        resolve_ranking(&candidates, "p", "b", &rankings, 32768),
        Err(PutBallotError::CandidateNotFound("nobody".to_string()))
    );
}

#[test]
fn insert_rankings_writes_the_rows_before_the_one_that_fails() {
    let db = PickyDb::new();
    let ops = PollOperations::new(PickyDb::new());
    let mut tx = db.new_transaction();
    tx.insert_poll(&pickypoll::db::Poll {
        id: "p".to_string(),
        name: "Dessert".to_string(),
        description: None,
        owner_id: "o".to_string(),
        expires: Timestamp { micros: 0 },
        close: None,
        write_ins: false,
    })
    .unwrap();
    tx.insert_candidate("p", "cookies", &None).unwrap();
    tx.insert_candidate("p", "cake", &None).unwrap();
    assert_eq!(
        ops.insert_rankings(&mut tx, "p", "b1", &texts(&["cake", "cookies", "flan", "cake"])),
        Err(PutBallotError::CandidateNotFound("flan".to_string()))
    );
    assert_eq!(tx.select_rankings("p"), vec![row("b1", 2, 0), row("b1", 1, 1)]);
    assert_eq!(ops.insert_rankings(&mut tx, "p", "b2", &texts(&["cookies"])), Ok(()));
    assert_eq!(
        tx.select_rankings("p"),
        vec![row("b1", 2, 0), row("b1", 1, 1), row("b2", 1, 0)]
    );
}

#[test]
fn the_ballot_row_decides_the_write() {
    let new = cast("b1", "Alice", 9);
    assert_eq!(decide_ballot_write(&None, &new), Ok(BallotWrite::Create));
    assert_eq!(decide_ballot_write(&Some(cast("b1", "Alice", 1)), &new), Ok(BallotWrite::Refresh));
    assert_eq!(
        decide_ballot_write(&Some(cast("b1", "Alicia", 1)), &new),
        Err(PutBallotError::NotSameName)
    );
    let mut foreign = cast("b1", "Alice", 1);
    foreign.owner_id = "mallory".to_string();
    assert_eq!(decide_ballot_write(&Some(foreign), &new), Err(PutBallotError::NotOwner));
    let mut both = cast("b1", "Alicia", 1);
    both.owner_id = "mallory".to_string();
    assert_eq!(decide_ballot_write(&Some(both), &new), Err(PutBallotError::NotOwner));
}

#[test]
fn a_name_is_seen_only_among_the_first_items() {
    let items = texts(&["a", "b", "c"]);
    assert!(seen_before(&items, 2, &"b".to_string()));
    assert!(!seen_before(&items, 1, &"b".to_string()));
    assert!(!seen_before(&items, 3, &"d".to_string()));
    assert!(!seen_before(&items, 0, &"a".to_string()));
}

#[test]
fn an_identity_is_its_token() {
    let mut ops = PollOperations::new(PickyDb::new());
    let owner = Identity::SecretKey("alice".to_string());
    let request = pickypoll::model::PostPollRequest {
        name: "Dessert".to_string(),
        description: None,
        candidates: vec![],
        configuration: pickypoll::model::Configuration { write_ins: false },
    };
    ops.post_poll_at(&owner, &request, "p", Timestamp { micros: 0 }).unwrap();
    let ballot = PutBallotRequest { name: "Alice".to_string(), rankings: vec![] };
    ops.put_ballot_at("p", &owner, "b", &ballot, Timestamp { micros: 1 }).unwrap();
    // The same token in another value is the same owner; another case is not.
    let same = Identity::SecretKey("ali".to_string() + "ce");
    assert_eq!(ops.put_ballot_at("p", &same, "b", &ballot, Timestamp { micros: 2 }), Ok(()));
    let other = Identity::SecretKey("Alice".to_string());
    assert_eq!(
        ops.put_ballot_at("p", &other, "b", &ballot, Timestamp { micros: 3 }),
        Err(PutBallotError::NotOwner)
    );
}

fn header(write_ins: bool) -> pickypoll::db::Poll {
    pickypoll::db::Poll {
        id: "p".to_string(),
        name: "Dessert".to_string(),
        description: None,
        owner_id: "o".to_string(),
        expires: Timestamp { micros: 0 },
        close: None,
        write_ins,
    }
}

#[test]
fn a_poll_takes_write_ins_only_if_it_says_so() {
    assert_eq!(write_in_poll(None), Err(PostCandidateError::PollNotFound));
    assert_eq!(write_in_poll(Some(header(false))), Err(PostCandidateError::NoWriteIns));
    assert_eq!(write_in_poll(Some(header(true))), Ok(header(true)));
    assert_eq!(poll_to_vote_in(None), Err(PutBallotError::PollNotFound));
    assert_eq!(poll_to_vote_in(Some(header(false))), Ok(header(false)));
}

#[test]
fn a_write_in_of_a_name_that_is_taken_is_a_duplicate() {
    let pie = pickypoll::model::Candidate { name: "pie".to_string(), description: None };
    let cake = pickypoll::model::Candidate {
        name: "cake".to_string(),
        description: Some("another cake".to_string()),
    };
    assert_eq!(check_write_in_name(&desserts(), &pie), Ok(()));
    assert_eq!(
        check_write_in_name(&desserts(), &cake),
        Err(PostCandidateError::DuplicateCandidate("cake".to_string()))
    );
    assert_eq!(check_write_in_name(&vec![], &cake), Ok(()));
}

#[test]
fn rows_of_unknown_candidates_are_listed_for_the_log() {
    let ballots = vec![cast("b1", "Alice", 5), cast("b2", "Bob", 6)];
    let rankings = vec![
        row("b1", 12, 0),
        row("b1", 99, 1),
        row("b3", 98, 0),
        row("b2", 97, 1),
        row("b2", 11, 0),
        row("b1", 99, 2),
    ];
    assert_eq!(
        skipped_rows(&desserts(), &ballots, &rankings),
        vec![row("b1", 99, 1), row("b2", 97, 1), row("b1", 99, 2)]
    );
    assert!(skipped_rows(&desserts(), &ballots, &vec![row("b1", 11, 0)]).is_empty());
    assert!(skipped_rows(&desserts(), &vec![], &rankings).is_empty());
    assert_eq!(skipped_rows(&vec![], &ballots, &vec![row("b2", 11, 0)]), vec![row("b2", 11, 0)]);
    assert!(is_listed(&ballots, &"b2".to_string()));
    assert!(!is_listed(&ballots, &"b3".to_string()));
}
