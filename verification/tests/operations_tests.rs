use pickypoll::db::PickyDb;
use pickypoll::model::{
    Candidate, Configuration, GetPollResponse, Identity, PostPollRequest, PutBallotRequest,
    Timestamp, POLL_LIFETIME_MICROS,
};
use pickypoll::operations::{
    GetPollError, PollOperations, PostCandidateError, PostPollError, PutBallotError,
};

fn candidate(name: &str) -> Candidate {
    Candidate { name: name.to_string(), description: None }
}

fn dessert_request(write_ins: bool) -> PostPollRequest {
    PostPollRequest {
        name: "Dessert".to_string(),
        description: Some("What dessert should be served?".to_string()),
        candidates: vec![candidate("cookies"), candidate("cake"), candidate("ice cream")],
        configuration: Configuration { write_ins },
    }
}

fn post_mock_poll(ops: &mut PollOperations) -> String {
    ops.post_poll(&Identity::SecretKey("secret".to_string()), &dessert_request(false))
        .expect("Should post poll")
        .poll
        .id
}

fn ballot_request(name: &str, rankings: &[&str]) -> PutBallotRequest {
    PutBallotRequest {
        name: name.to_string(),
        rankings: rankings.iter().map(|r| r.to_string()).collect(),
    }
}

fn at(micros: i64) -> Timestamp {
    Timestamp { micros }
}

fn names(list: &[&str]) -> Vec<String> {
    list.iter().map(|r| r.to_string()).collect()
}

fn read(ops: &PollOperations, poll_id: &str) -> GetPollResponse {
    ops.get_poll(poll_id).expect("get poll should succeed")
}

#[test]
fn operations_test_post_poll() {
    let mut service = PollOperations::new(PickyDb::new());

    let mock_user = Identity::SecretKey("test user".to_string());

    let post_poll_request = PostPollRequest {
        name: "test poll name".to_owned(),
        description: Some("test poll description".to_owned()),
        candidates: vec![Candidate {
            name: "candidate".to_owned(),
            description: Some("candidate description".to_owned()),
        }],
        configuration: Configuration { write_ins: false },
    };
    let post_poll_response = service.post_poll(&mock_user, &post_poll_request).unwrap();

    let get_poll_response = service.get_poll(&post_poll_response.poll.id).unwrap();

    assert_eq!(post_poll_request.name, get_poll_response.poll.name);

    let mut request_candidates = post_poll_request.candidates.clone();
    request_candidates.sort_by_key(|c| c.name.clone());
    let mut response_candidates = get_poll_response.poll.candidates.clone();
    response_candidates.sort_by_key(|c| c.name.clone());
    assert_eq!(post_poll_request.candidates, response_candidates);
}

#[test]
fn operations_happy_path() {
    let mut ops = PollOperations::new(PickyDb::new());

    let mock_poll_id = post_mock_poll(&mut ops);

    let mock_identity = Identity::SecretKey("mock user".to_string());
    let mock_ballot_id = "mock_ballot_id";
    let mock_request = PutBallotRequest {
        name: "mock username".to_string(),
        rankings: vec!["cake".to_string(), "cookies".to_string()],
    };
    ops.put_ballot(&mock_poll_id, &mock_identity, mock_ballot_id, &mock_request)
        .expect("put ballot should succeed");

    let get_poll_response = ops.get_poll(&mock_poll_id).expect("get poll should succeed");
    let ballot = get_poll_response.ballots.first().expect("poll should have ballot");

    assert_eq!(&ballot.name, &mock_request.name);
    assert_eq!(&ballot.rankings, &mock_request.rankings);
}

#[test]
fn replace_ballot() {
    let mut ops = PollOperations::new(PickyDb::new());

    let mock_poll_id = post_mock_poll(&mut ops);

    let mock_identity = Identity::SecretKey("mock user".to_string());
    let mock_ballot_id = "mock_ballot_id";
    let mut mock_request = PutBallotRequest {
        name: "mock username".to_string(),
        rankings: vec!["cake".to_string(), "cookies".to_string()],
    };
    ops.put_ballot(&mock_poll_id, &mock_identity, mock_ballot_id, &mock_request)
        .expect("put ballot should succeed");

    mock_request.rankings.reverse();
    ops.put_ballot(&mock_poll_id, &mock_identity, mock_ballot_id, &mock_request)
        .expect("put ballot should succeed");

    let get_poll_response = ops.get_poll(&mock_poll_id).expect("get poll should succeed");

    let ballot = get_poll_response.ballots.first().expect("poll should have ballot");

    assert_eq!(&ballot.name, &mock_request.name);
    assert_eq!(&ballot.rankings, &mock_request.rankings);
}

#[test]
fn post_poll_draws_an_id_of_ten_letters_and_digits() {
    let mut ops = PollOperations::new(PickyDb::new());
    let first = post_mock_poll(&mut ops);
    let second = post_mock_poll(&mut ops);
    assert_eq!(first.chars().count(), 10);
    assert!(first.chars().all(|c| c.is_ascii_alphanumeric()));
    assert_eq!(second.chars().count(), 10);
    assert!(second.chars().all(|c| c.is_ascii_alphanumeric()));
    assert_ne!(first, second);
}

#[test]
fn post_poll_expires_a_week_after_the_clock() {
    let mut ops = PollOperations::new(PickyDb::new());
    let response = ops
        .post_poll(&Identity::SecretKey("secret".to_string()), &dessert_request(false))
        .expect("Should post poll");
    // Any moment after 2020-01-01 and a week: the clock was read, not a constant.
    assert!(response.poll.expires.micros > 1_577_836_800_000_000 + POLL_LIFETIME_MICROS);
    assert_eq!(response.poll.close, None);
}

#[test]
fn post_poll_at_sets_every_field() {
    let mut ops = PollOperations::new(PickyDb::new());
    let response = ops
        .post_poll_at(
            &Identity::SecretKey("owner".to_string()),
            &dessert_request(true),
            "poll000001",
            at(1_000),
        )
        .expect("Should post poll");
    assert_eq!(response.poll.id, "poll000001");
    assert_eq!(response.poll.name, "Dessert");
    assert_eq!(response.poll.description, Some("What dessert should be served?".to_string()));
    assert_eq!(response.poll.expires, at(604_800_001_000));
    assert_eq!(response.poll.close, None);
    assert_eq!(response.poll.configuration, Configuration { write_ins: true });
    assert_eq!(
        response.poll.candidates,
        vec![candidate("cookies"), candidate("cake"), candidate("ice cream")]
    );

    let shown = read(&ops, "poll000001");
    assert_eq!(shown.poll.id, "poll000001");
    assert_eq!(shown.poll.name, "Dessert");
    assert_eq!(shown.poll.description, Some("What dessert should be served?".to_string()));
    assert_eq!(shown.poll.expires, at(604_800_001_000));
    assert_eq!(shown.poll.close, None);
    assert_eq!(shown.poll.configuration, Configuration { write_ins: true });
    assert_eq!(
        shown.poll.candidates,
        vec![candidate("cookies"), candidate("cake"), candidate("ice cream")]
    );
    assert!(shown.ballots.is_empty());
}

#[test]
fn post_poll_at_the_last_moment_that_fits() {
    let mut ops = PollOperations::new(PickyDb::new());
    let response = ops
        .post_poll_at(
            &Identity::SecretKey("owner".to_string()),
            &dessert_request(false),
            "poll000001",
            at(i64::MAX - POLL_LIFETIME_MICROS),
        )
        .expect("Should post poll");
    assert_eq!(response.poll.expires, at(i64::MAX));
}

#[test]
fn post_poll_past_the_last_moment_that_fits_is_unexpected() {
    let mut ops = PollOperations::new(PickyDb::new());
    let error = ops
        .post_poll_at(
            &Identity::SecretKey("owner".to_string()),
            &dessert_request(false),
            "poll000001",
            at(i64::MAX - POLL_LIFETIME_MICROS + 1),
        )
        .expect_err("no timestamp holds the expiry");
    assert_eq!(error, PostPollError::Unexpected);
    assert_eq!(ops.get_poll("poll000001").unwrap_err(), GetPollError::NotFound);

    // Two candidates of one name are refused first.
    let request = PostPollRequest {
        name: "Dessert".to_string(),
        description: None,
        candidates: vec![candidate("pie"), candidate("pie")],
        configuration: Configuration { write_ins: false },
    };
    let error = ops
        .post_poll_at(&Identity::SecretKey("owner".to_string()), &request, "poll000001", at(i64::MAX))
        .expect_err("duplicate candidates should be refused");
    assert_eq!(error, PostPollError::DuplicateCandidate("pie".to_string()));
}

#[test]
fn post_poll_refuses_two_candidates_of_one_name() {
    let mut ops = PollOperations::new(PickyDb::new());
    let request = PostPollRequest {
        name: "Dessert".to_string(),
        description: None,
        candidates: vec![candidate("cake"), candidate("pie"), candidate("pie"), candidate("cake")],
        configuration: Configuration { write_ins: false },
    };
    let error = ops
        .post_poll_at(&Identity::SecretKey("owner".to_string()), &request, "poll000001", at(0))
        .expect_err("duplicate candidates should be refused");
    assert_eq!(error, PostPollError::DuplicateCandidate("pie".to_string()));
    assert_eq!(ops.get_poll("poll000001").unwrap_err(), GetPollError::NotFound);

    let error = ops
        .post_poll(&Identity::SecretKey("owner".to_string()), &request)
        .expect_err("duplicate candidates should be refused");
    assert_eq!(error, PostPollError::DuplicateCandidate("pie".to_string()));
}

#[test]
fn post_poll_refuses_an_id_that_is_taken() {
    let mut ops = PollOperations::new(PickyDb::new());
    let owner = Identity::SecretKey("owner".to_string());
    ops.post_poll_at(&owner, &dessert_request(false), "poll000001", at(0)).expect("first poll");
    let other = PostPollRequest {
        name: "Drinks".to_string(),
        description: None,
        candidates: vec![candidate("tea")],
        configuration: Configuration { write_ins: false },
    };
    let error = ops
        .post_poll_at(&owner, &other, "poll000001", at(5))
        .expect_err("a taken id should be refused");
    assert_eq!(error, PostPollError::Unexpected);
    let shown = read(&ops, "poll000001");
    assert_eq!(shown.poll.name, "Dessert");
    assert_eq!(shown.poll.candidates.len(), 3);
}

#[test]
fn post_poll_without_candidates() {
    let mut ops = PollOperations::new(PickyDb::new());
    let request = PostPollRequest {
        name: "Empty".to_string(),
        description: None,
        candidates: vec![],
        configuration: Configuration { write_ins: true },
    };
    ops.post_poll_at(&Identity::SecretKey("owner".to_string()), &request, "poll000001", at(0))
        .expect("Should post poll");
    let shown = read(&ops, "poll000001");
    assert!(shown.poll.candidates.is_empty());
    assert_eq!(shown.poll.description, None);
}

#[test]
fn get_poll_of_an_unknown_id_is_not_found() {
    let mut ops = PollOperations::new(PickyDb::new());
    assert_eq!(ops.get_poll("nothing").unwrap_err(), GetPollError::NotFound);
    post_mock_poll(&mut ops);
    assert_eq!(ops.get_poll("nothing").unwrap_err(), GetPollError::NotFound);
}

#[test]
fn post_candidate_adds_a_write_in() {
    let mut ops = PollOperations::new(PickyDb::new());
    let owner = Identity::SecretKey("owner".to_string());
    ops.post_poll_at(&owner, &dessert_request(true), "poll000001", at(0)).expect("poll");
    let pie = Candidate { name: "pie".to_string(), description: Some("apple".to_string()) };
    ops.post_candidate("poll000001", &pie).expect("write-in should be added");
    let shown = read(&ops, "poll000001");
    assert_eq!(
        shown.poll.candidates,
        vec![candidate("cookies"), candidate("cake"), candidate("ice cream"), pie]
    );
    ops.put_ballot_at("poll000001", &owner, "b1", &ballot_request("Owner", &["pie", "cake"]), at(1))
        .expect("the write-in can be ranked");
    assert_eq!(read(&ops, "poll000001").ballots[0].rankings, names(&["pie", "cake"]));
}

#[test]
fn post_candidate_errors() {
    let mut ops = PollOperations::new(PickyDb::new());
    let owner = Identity::SecretKey("owner".to_string());
    ops.post_poll_at(&owner, &dessert_request(false), "closed0001", at(0)).expect("poll");
    ops.post_poll_at(&owner, &dessert_request(true), "open000001", at(0)).expect("poll");

    assert_eq!(
        ops.post_candidate("missing", &candidate("pie")).unwrap_err(),
        PostCandidateError::PollNotFound
    );
    assert_eq!(
        ops.post_candidate("closed0001", &candidate("pie")).unwrap_err(),
        PostCandidateError::NoWriteIns
    );
    // The poll that takes no write-ins says so even for a name that it has.
    assert_eq!(
        ops.post_candidate("closed0001", &candidate("cake")).unwrap_err(),
        PostCandidateError::NoWriteIns
    );
    assert_eq!(
        ops.post_candidate("open000001", &candidate("cake")).unwrap_err(),
        PostCandidateError::DuplicateCandidate("cake".to_string())
    );
    assert_eq!(read(&ops, "closed0001").poll.candidates.len(), 3);
    assert_eq!(read(&ops, "open000001").poll.candidates.len(), 3);

    ops.post_candidate("open000001", &candidate("pie")).expect("write-in");
    assert_eq!(
        ops.post_candidate("open000001", &candidate("pie")).unwrap_err(),
        PostCandidateError::DuplicateCandidate("pie".to_string())
    );

    // The same name in another poll is no duplicate.
    ops.post_poll_at(&owner, &dessert_request(true), "open000002", at(0)).expect("poll");
    ops.post_candidate("open000002", &candidate("pie")).expect("write-in");
    assert_eq!(read(&ops, "open000001").poll.candidates.len(), 4);
    assert_eq!(read(&ops, "open000002").poll.candidates.len(), 4);
}

#[test]
fn happy_path_create() {
    let mut client = PollOperations::new(PickyDb::new());
    let poll_id = post_mock_poll(&mut client);

    let mock_ballot = PutBallotRequest { name: "".to_owned(), rankings: Vec::new() };

    client
        .put_ballot(&poll_id, &Identity::SecretKey("".to_owned()), "1", &mock_ballot)
        .expect("Should successfully create the ballot");
    let shown = read(&client, &poll_id);
    assert_eq!(shown.ballots.len(), 1);
    assert_eq!(shown.ballots[0].id, "1");
    assert_eq!(shown.ballots[0].name, "");
    assert!(shown.ballots[0].rankings.is_empty());
}

#[test]
fn put_ballot_twice_is_a_refresh() {
    let mut ops = PollOperations::new(PickyDb::new());
    let poll_id = post_mock_poll(&mut ops);
    let alice = Identity::SecretKey("alice".to_string());
    let request = ballot_request("Alice", &["cake", "cookies"]);
    ops.put_ballot_at(&poll_id, &alice, "b1", &request, at(100)).expect("first cast");
    let first = read(&ops, &poll_id);
    assert_eq!(first.ballots.len(), 1);
    assert_eq!(first.ballots[0].timestamp, at(100));

    ops.put_ballot_at(&poll_id, &alice, "b1", &request, at(200)).expect("second cast");
    let second = read(&ops, &poll_id);
    assert_eq!(second.ballots.len(), 1);
    assert_eq!(second.ballots[0].id, "b1");
    assert_eq!(second.ballots[0].name, "Alice");
    assert_eq!(second.ballots[0].timestamp, at(200));
    assert_eq!(second.ballots[0].rankings, names(&["cake", "cookies"]));
}

#[test]
fn put_ballot_by_another_identity_is_not_the_owners() {
    let mut ops = PollOperations::new(PickyDb::new());
    let poll_id = post_mock_poll(&mut ops);
    let alice = Identity::SecretKey("alice".to_string());
    let mallory = Identity::SecretKey("mallory".to_string());
    ops.put_ballot_at(&poll_id, &alice, "b1", &ballot_request("Alice", &["cake", "cookies"]), at(1))
        .expect("alice casts");
    let error = ops
        .put_ballot_at(&poll_id, &mallory, "b1", &ballot_request("Alice", &["ice cream"]), at(2))
        .expect_err("mallory is refused");
    assert_eq!(error, PutBallotError::NotOwner);
    let shown = read(&ops, &poll_id);
    assert_eq!(shown.ballots.len(), 1);
    assert_eq!(shown.ballots[0].name, "Alice");
    assert_eq!(shown.ballots[0].timestamp, at(1));
    assert_eq!(shown.ballots[0].rankings, names(&["cake", "cookies"]));
}

#[test]
fn put_ballot_by_another_owner_under_another_name_is_not_the_owners() {
    let mut ops = PollOperations::new(PickyDb::new());
    let poll_id = post_mock_poll(&mut ops);
    let alice = Identity::SecretKey("alice".to_string());
    let mallory = Identity::SecretKey("mallory".to_string());
    ops.put_ballot_at(&poll_id, &alice, "b1", &ballot_request("Alice", &["cake"]), at(1))
        .expect("alice casts");
    let error = ops
        .put_ballot_at(&poll_id, &mallory, "b1", &ballot_request("Mallory", &["cake"]), at(2))
        .expect_err("mallory is refused");
    assert_eq!(error, PutBallotError::NotOwner);
}

#[test]
fn put_ballot_under_another_name_is_refused() {
    let mut ops = PollOperations::new(PickyDb::new());
    let poll_id = post_mock_poll(&mut ops);
    let alice = Identity::SecretKey("alice".to_string());
    ops.put_ballot_at(&poll_id, &alice, "b1", &ballot_request("Alice", &["cake", "cookies"]), at(1))
        .expect("alice casts");
    let error = ops
        .put_ballot_at(&poll_id, &alice, "b1", &ballot_request("Alicia", &["cookies"]), at(2))
        .expect_err("a new name is refused");
    assert_eq!(error, PutBallotError::NotSameName);
    let shown = read(&ops, &poll_id);
    assert_eq!(shown.ballots.len(), 1);
    assert_eq!(shown.ballots[0].name, "Alice");
    assert_eq!(shown.ballots[0].timestamp, at(1));
    assert_eq!(shown.ballots[0].rankings, names(&["cake", "cookies"]));
}

#[test]
fn put_ballot_replaces_the_rankings() {
    let mut ops = PollOperations::new(PickyDb::new());
    let poll_id = post_mock_poll(&mut ops);
    let alice = Identity::SecretKey("alice".to_string());
    ops.put_ballot_at(&poll_id, &alice, "b1", &ballot_request("Alice", &["cake", "cookies"]), at(1))
        .expect("first cast");
    ops.put_ballot_at(&poll_id, &alice, "b1", &ballot_request("Alice", &["cookies", "cake"]), at(2))
        .expect("second cast");
    assert_eq!(read(&ops, &poll_id).ballots[0].rankings, names(&["cookies", "cake"]));
    ops.put_ballot_at(&poll_id, &alice, "b1", &ballot_request("Alice", &["ice cream"]), at(3))
        .expect("third cast");
    assert_eq!(read(&ops, &poll_id).ballots[0].rankings, names(&["ice cream"]));
    ops.put_ballot_at(&poll_id, &alice, "b1", &ballot_request("Alice", &[]), at(4))
        .expect("fourth cast");
    assert!(read(&ops, &poll_id).ballots[0].rankings.is_empty());
    ops.put_ballot_at(
        &poll_id,
        &alice,
        "b1",
        &ballot_request("Alice", &["ice cream", "cake", "cookies"]),
        at(5),
    )
    .expect("fifth cast");
    let shown = read(&ops, &poll_id);
    assert_eq!(shown.ballots.len(), 1);
    assert_eq!(shown.ballots[0].rankings, names(&["ice cream", "cake", "cookies"]));
}

#[test]
fn put_ballot_with_an_unknown_candidate_changes_nothing() {
    let mut ops = PollOperations::new(PickyDb::new());
    let poll_id = post_mock_poll(&mut ops);
    let alice = Identity::SecretKey("alice".to_string());
    ops.put_ballot_at(&poll_id, &alice, "b1", &ballot_request("Alice", &["cookies", "cake"]), at(1))
        .expect("first cast");
    let error = ops
        .put_ballot_at(&poll_id, &alice, "b1", &ballot_request("Alice", &["cake", "nonexistent"]), at(2))
        .expect_err("an unknown candidate is refused");
    assert_eq!(error, PutBallotError::CandidateNotFound("nonexistent".to_string()));
    let shown = read(&ops, &poll_id);
    assert_eq!(shown.ballots.len(), 1);
    assert_eq!(shown.ballots[0].timestamp, at(1));
    assert_eq!(shown.ballots[0].rankings, names(&["cookies", "cake"]));

    // A first cast that is refused leaves no ballot behind.
    let error = ops
        .put_ballot_at(&poll_id, &alice, "b2", &ballot_request("Alice", &["nobody", "noone"]), at(3))
        .expect_err("an unknown candidate is refused");
    assert_eq!(error, PutBallotError::CandidateNotFound("nobody".to_string()));
    assert_eq!(read(&ops, &poll_id).ballots.len(), 1);
}

#[test]
fn put_ballot_with_a_repeated_name_is_refused_first() {
    let mut ops = PollOperations::new(PickyDb::new());
    let poll_id = post_mock_poll(&mut ops);
    let alice = Identity::SecretKey("alice".to_string());
    let error = ops
        .put_ballot_at(&poll_id, &alice, "b1", &ballot_request("Alice", &["cake", "cake"]), at(1))
        .expect_err("a repeated name is refused");
    assert_eq!(error, PutBallotError::DuplicateRanking("cake".to_string()));
    assert!(read(&ops, &poll_id).ballots.is_empty());

    // Before the poll is looked up, and before the names are resolved.
    let error = ops
        .put_ballot_at("missing", &alice, "b1", &ballot_request("Alice", &["x", "y", "y", "x"]), at(1))
        .expect_err("a repeated name is refused");
    assert_eq!(error, PutBallotError::DuplicateRanking("y".to_string()));
    let error = ops
        .put_ballot(&poll_id, &alice, "b1", &ballot_request("Alice", &["nobody", "cake", "nobody"]))
        .expect_err("a repeated name is refused");
    assert_eq!(error, PutBallotError::DuplicateRanking("nobody".to_string()));
}

#[test]
fn put_ballot_on_an_unknown_poll_is_refused() {
    let mut ops = PollOperations::new(PickyDb::new());
    post_mock_poll(&mut ops);
    let alice = Identity::SecretKey("alice".to_string());
    let error = ops
        .put_ballot_at("missing", &alice, "b1", &ballot_request("Alice", &["cake"]), at(1))
        .expect_err("an unknown poll is refused");
    assert_eq!(error, PutBallotError::PollNotFound);
}

#[test]
fn put_ballot_reads_the_clock() {
    let mut ops = PollOperations::new(PickyDb::new());
    let poll_id = post_mock_poll(&mut ops);
    let alice = Identity::SecretKey("alice".to_string());
    ops.put_ballot(&poll_id, &alice, "b1", &ballot_request("Alice", &["cake"])).expect("cast");
    // Any moment after 2020-01-01.
    assert!(read(&ops, &poll_id).ballots[0].timestamp.micros > 1_577_836_800_000_000);
}

#[test]
fn ballots_of_one_poll_are_shown_in_the_order_of_their_first_cast() {
    let mut ops = PollOperations::new(PickyDb::new());
    let owner = Identity::SecretKey("owner".to_string());
    ops.post_poll_at(&owner, &dessert_request(false), "dessert001", at(0)).expect("poll");
    let drinks = PostPollRequest {
        name: "Drinks".to_string(),
        description: None,
        candidates: vec![candidate("tea"), candidate("cake")],
        configuration: Configuration { write_ins: false },
    };
    ops.post_poll_at(&owner, &drinks, "drinks0001", at(0)).expect("poll");

    let alice = Identity::SecretKey("alice".to_string());
    let bob = Identity::SecretKey("bob".to_string());
    ops.put_ballot_at("dessert001", &alice, "b1", &ballot_request("Alice", &["cake", "cookies"]), at(1))
        .expect("cast");
    ops.put_ballot_at("drinks0001", &alice, "b1", &ballot_request("Alice", &["tea", "cake"]), at(2))
        .expect("cast");
    ops.put_ballot_at("dessert001", &bob, "b2", &ballot_request("Bob", &["ice cream", "cake", "cookies"]), at(3))
        .expect("cast");
    ops.put_ballot_at("dessert001", &alice, "b1", &ballot_request("Alice", &["cookies"]), at(4))
        .expect("cast");

    let dessert = read(&ops, "dessert001");
    assert_eq!(dessert.ballots.len(), 2);
    assert_eq!(dessert.ballots[0].id, "b1");
    assert_eq!(dessert.ballots[0].name, "Alice");
    assert_eq!(dessert.ballots[0].timestamp, at(4));
    assert_eq!(dessert.ballots[0].rankings, names(&["cookies"]));
    assert_eq!(dessert.ballots[1].id, "b2");
    assert_eq!(dessert.ballots[1].name, "Bob");
    assert_eq!(dessert.ballots[1].timestamp, at(3));
    assert_eq!(dessert.ballots[1].rankings, names(&["ice cream", "cake", "cookies"]));

    let drinks = read(&ops, "drinks0001");
    assert_eq!(drinks.ballots.len(), 1);
    assert_eq!(drinks.ballots[0].id, "b1");
    assert_eq!(drinks.ballots[0].timestamp, at(2));
    assert_eq!(drinks.ballots[0].rankings, names(&["tea", "cake"]));
}

#[test]
fn a_candidate_of_another_poll_is_unknown() {
    let mut ops = PollOperations::new(PickyDb::new());
    let owner = Identity::SecretKey("owner".to_string());
    ops.post_poll_at(&owner, &dessert_request(false), "dessert001", at(0)).expect("poll");
    let drinks = PostPollRequest {
        name: "Drinks".to_string(),
        description: None,
        candidates: vec![candidate("tea")],
        configuration: Configuration { write_ins: false },
    };
    ops.post_poll_at(&owner, &drinks, "drinks0001", at(0)).expect("poll");
    let error = ops
        .put_ballot_at("drinks0001", &owner, "b1", &ballot_request("Owner", &["tea", "cake"]), at(1))
        .expect_err("cake is no drink");
    assert_eq!(error, PutBallotError::CandidateNotFound("cake".to_string()));
}
