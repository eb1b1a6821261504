use pickypoll::db::{
    is_unique_violation, Ballot, Candidate, PickyDb, Poll, Ranking, StorageError,
};
use pickypoll::operations::errors::write_in_failure;
use pickypoll::operations::PostCandidateError;
use pickypoll::model::Timestamp;

fn poll(id: &str) -> Poll {
    Poll {
        id: id.to_string(),
        name: "Dessert".to_string(),
        description: Some("What shall be served for dessert? 🍦🍪🎂".to_string()),
        owner_id: "A".to_string(),
        expires: Timestamp { micros: 7 },
        close: None,
        write_ins: false,
    }
}

fn ballot(id: &str, name: &str, owner: &str, micros: i64) -> Ballot {
    Ballot {
        id: id.to_string(),
        name: name.to_string(),
        timestamp: Timestamp { micros },
        owner_id: owner.to_string(),
    }
}

fn ranking(poll_id: &str, ballot_id: &str, candidate_id: i32, position: i16) -> Ranking {
    Ranking {
        ballot_id: ballot_id.to_string(),
        poll_id: poll_id.to_string(),
        candidate_id,
        ranking: position,
    }
}

#[test]
fn an_empty_store_holds_nothing() {
    let db = PickyDb::new();
    let tx = db.new_transaction();
    assert_eq!(tx.select_poll("p"), None);
    assert!(tx.select_candidates("p").is_empty());
    assert!(tx.select_ballots("p").is_empty());
    assert_eq!(tx.select_ballot("p", "b"), None);
    assert!(tx.select_rankings("p").is_empty());
}

#[test]
fn a_poll_is_read_as_it_was_written() {
    let mut db = PickyDb::new();
    let mut tx = db.new_transaction();
    assert_eq!(tx.insert_poll(&poll("p1")), Ok(()));
    assert_eq!(tx.select_poll("p1"), Some(poll("p1")));
    assert_eq!(tx.select_poll("p2"), None);
    tx.commit(&mut db);
    assert_eq!(db.new_transaction().select_poll("p1"), Some(poll("p1")));
}

#[test]
fn a_second_poll_of_the_same_id_is_a_conflict() {
    let db = PickyDb::new();
    let mut tx = db.new_transaction();
    assert_eq!(tx.insert_poll(&poll("p1")), Ok(()));
    let mut other = poll("p1");
    other.name = "Drinks".to_string();
    assert_eq!(tx.insert_poll(&other), Err(StorageError::Conflict));
    assert_eq!(tx.select_poll("p1"), Some(poll("p1")));
    assert_eq!(tx.insert_poll(&poll("p2")), Ok(()));
}

#[test]
fn a_transaction_that_is_dropped_writes_nothing() {
    let db = PickyDb::new();
    let mut tx = db.new_transaction();
    assert_eq!(tx.insert_poll(&poll("p1")), Ok(()));
    assert_eq!(tx.insert_candidate("p1", "cake", &None), Ok(()));
    assert_eq!(db.new_transaction().select_poll("p1"), None);
    assert!(db.new_transaction().select_candidates("p1").is_empty());
}

#[test]
fn candidates_get_the_next_ids() {
    let mut db = PickyDb::new();
    let mut tx = db.new_transaction();
    tx.insert_poll(&poll("p1")).unwrap();
    tx.insert_poll(&poll("p2")).unwrap();
    assert_eq!(tx.insert_candidate("p1", "cake", &Some("sweet".to_string())), Ok(()));
    assert_eq!(tx.insert_candidate("p2", "cake", &None), Ok(()));
    assert_eq!(tx.insert_candidate("p1", "pie", &None), Ok(()));
    tx.commit(&mut db);
    let tx = db.new_transaction();
    assert_eq!(
        tx.select_candidates("p1"),
        vec![
            Candidate { id: 1, name: "cake".to_string(), description: Some("sweet".to_string()) },
            Candidate { id: 3, name: "pie".to_string(), description: None },
        ]
    );
    assert_eq!(
        tx.select_candidates("p2"),
        vec![Candidate { id: 2, name: "cake".to_string(), description: None }]
    );
    assert!(tx.has_candidate_named("p1", "pie"));
    assert!(!tx.has_candidate_named("p2", "pie"));
    assert!(!tx.has_candidate_named("p3", "pie"));
}

#[test]
fn a_refused_candidate_takes_no_id() {
    let db = PickyDb::new();
    let mut tx = db.new_transaction();
    tx.insert_poll(&poll("p1")).unwrap();
    assert_eq!(tx.insert_candidate("missing", "cake", &None), Err(StorageError::MissingPoll));
    assert_eq!(tx.insert_candidate("p1", "cake", &None), Ok(()));
    assert_eq!(tx.insert_candidate("p1", "cake", &None), Err(StorageError::Conflict));
    assert_eq!(tx.insert_candidate("p1", "pie", &None), Ok(()));
    assert_eq!(
        tx.select_candidates("p1"),
        vec![
            Candidate { id: 1, name: "cake".to_string(), description: None },
            Candidate { id: 2, name: "pie".to_string(), description: None },
        ]
    );
}

#[test]
fn ballots_are_kept_per_poll() {
    let db = PickyDb::new();
    let mut tx = db.new_transaction();
    tx.insert_poll(&poll("p1")).unwrap();
    tx.insert_poll(&poll("p2")).unwrap();
    assert_eq!(tx.insert_ballot("p1", &ballot("b1", "Alice", "alice", 1)), Ok(()));
    assert_eq!(tx.insert_ballot("p2", &ballot("b1", "Bob", "bob", 2)), Ok(()));
    assert_eq!(tx.insert_ballot("p1", &ballot("b2", "Carol", "carol", 3)), Ok(()));
    assert_eq!(
        tx.insert_ballot("p1", &ballot("b1", "Mallory", "mallory", 4)),
        Err(StorageError::Conflict)
    );
    assert_eq!(
        tx.insert_ballot("p3", &ballot("b1", "Alice", "alice", 5)),
        Err(StorageError::MissingPoll)
    );
    assert_eq!(tx.select_ballot("p1", "b1"), Some(ballot("b1", "Alice", "alice", 1)));
    assert_eq!(tx.select_ballot("p2", "b1"), Some(ballot("b1", "Bob", "bob", 2)));
    assert_eq!(tx.select_ballot("p2", "b2"), None);
    assert_eq!(
        tx.select_ballots("p1"),
        vec![ballot("b1", "Alice", "alice", 1), ballot("b2", "Carol", "carol", 3)]
    );
}

#[test]
fn update_ballot_sets_the_timestamp_of_the_matching_row() {
    let db = PickyDb::new();
    let mut tx = db.new_transaction();
    tx.insert_poll(&poll("p1")).unwrap();
    tx.insert_poll(&poll("p2")).unwrap();
    tx.insert_ballot("p1", &ballot("b1", "Alice", "alice", 1)).unwrap();
    tx.insert_ballot("p2", &ballot("b1", "Alice", "alice", 2)).unwrap();
    tx.insert_ballot("p1", &ballot("b2", "Alice", "alice", 3)).unwrap();

    tx.update_ballot("p1", &ballot("b1", "Alice", "someone", 10));
    assert_eq!(tx.select_ballot("p1", "b1"), Some(ballot("b1", "Alice", "alice", 10)));
    assert_eq!(tx.select_ballot("p2", "b1"), Some(ballot("b1", "Alice", "alice", 2)));
    assert_eq!(tx.select_ballot("p1", "b2"), Some(ballot("b2", "Alice", "alice", 3)));

    // No row has this id under this name: nothing changes.
    tx.update_ballot("p1", &ballot("b1", "Alicia", "alice", 20));
    assert_eq!(tx.select_ballot("p1", "b1"), Some(ballot("b1", "Alice", "alice", 10)));
}

#[test]
fn rankings_are_written_under_the_poll_given_and_deleted_per_ballot() {
    let db = PickyDb::new();
    let mut tx = db.new_transaction();
    tx.insert_ranking("p1", &ranking("elsewhere", "b1", 1, 0));
    tx.insert_ranking("p1", &ranking("p1", "b2", 2, 0));
    tx.insert_ranking("p2", &ranking("p2", "b1", 3, 0));
    tx.insert_ranking("p1", &ranking("p1", "b1", 2, 1));
    assert_eq!(
        tx.select_rankings("p1"),
        vec![ranking("p1", "b1", 1, 0), ranking("p1", "b2", 2, 0), ranking("p1", "b1", 2, 1)]
    );
    assert!(tx.select_rankings("elsewhere").is_empty());

    tx.delete_rankings("p1", "b1");
    assert_eq!(tx.select_rankings("p1"), vec![ranking("p1", "b2", 2, 0)]);
    assert_eq!(tx.select_rankings("p2"), vec![ranking("p2", "b1", 3, 0)]);
    tx.delete_rankings("p1", "b1");
    assert_eq!(tx.select_rankings("p1"), vec![ranking("p1", "b2", 2, 0)]);
}

fn new_mock_poll() -> Poll {
    poll("mock000001")
}

#[test]
fn db_happy_path() {
    let mut client = PickyDb::new();
    let mock_poll_row = new_mock_poll();

    let mut tx = client.new_transaction();
    tx.insert_poll(&mock_poll_row).unwrap();

    let mock_candidate = pickypoll::model::Candidate {
        name: "mock row".to_owned(),
        description: Some("mock description".to_owned()),
    };
    tx.insert_candidates(&mock_poll_row.id, &vec![mock_candidate.clone()])
        .expect("Failed to insert candidate");
    tx.commit(&mut client);

    let selected_candidates = client.new_transaction().select_candidates(&mock_poll_row.id);

    assert_eq!(selected_candidates.len(), 1);
    assert_eq!(selected_candidates[0].name, mock_candidate.name);
    assert_eq!(selected_candidates[0].description, mock_candidate.description);
}

#[test]
fn conflict() {
    let client = PickyDb::new();
    let mock_poll_row = new_mock_poll();

    let mut tx = client.new_transaction();
    tx.insert_poll(&mock_poll_row).unwrap();

    let mock_candidate = pickypoll::model::Candidate {
        name: "mock row".to_owned(),
        description: Some("mock description".to_owned()),
    };
    tx.insert_candidates(&mock_poll_row.id, &vec![mock_candidate.clone()])
        .expect("Failed to insert candidate");

    let error = tx
        .insert_candidates(&mock_poll_row.id, &vec![mock_candidate.clone()])
        .expect_err("Should fail when inserting the same candidate again");
    match error {
        StorageError::Conflict => (),
        _ => panic!("Expected InsertCandidateErr {:?}", error),
    }
}

#[test]
fn test_insert_poll() {
    let mut client = PickyDb::new();
    let mock_poll_row = new_mock_poll();

    let mut tx = client.new_transaction();
    tx.insert_poll(&mock_poll_row).unwrap();
    tx.insert_candidates(&mock_poll_row.id, &Vec::new()).unwrap();
    tx.commit(&mut client);
    let got_poll = client.new_transaction().select_poll(&mock_poll_row.id).unwrap();

    assert_eq!(mock_poll_row, got_poll)
}

#[test]
fn insert_candidates_stops_at_the_first_that_is_refused() {
    let db = PickyDb::new();
    let mut tx = db.new_transaction();
    tx.insert_poll(&poll("p1")).unwrap();
    tx.insert_candidate("p1", "cake", &None).unwrap();
    let named = |name: &str| pickypoll::model::Candidate { name: name.to_string(), description: None };
    assert_eq!(
        tx.insert_candidates("p1", &vec![named("pie"), named("tart"), named("pie"), named("flan")]),
        Err(StorageError::Conflict)
    );
    assert_eq!(
        tx.select_candidates("p1"),
        vec![
            Candidate { id: 1, name: "cake".to_string(), description: None },
            Candidate { id: 2, name: "pie".to_string(), description: None },
            Candidate { id: 3, name: "tart".to_string(), description: None },
        ]
    );
    assert_eq!(
        tx.insert_candidates("p1", &vec![named("flan"), named("cake")]),
        Err(StorageError::Conflict)
    );
    assert_eq!(tx.select_candidates("p1").len(), 4);
    assert_eq!(tx.insert_candidates("p2", &vec![named("flan")]), Err(StorageError::MissingPoll));
    assert_eq!(tx.insert_candidates("p2", &vec![]), Ok(()));
}

#[test]
fn a_unique_violation_is_known_by_its_code() {
    assert!(is_unique_violation("23505"));
    assert!(!is_unique_violation("23503"));
    assert!(!is_unique_violation("2350"));
    assert!(!is_unique_violation("235050"));
    assert!(!is_unique_violation(""));
}

#[test]
fn a_refused_write_in_is_told_by_its_refusal() {
    let name = "pie".to_string();
    assert_eq!(
        write_in_failure(StorageError::Conflict, &name),
        PostCandidateError::DuplicateCandidate("pie".to_string())
    );
    assert_eq!(write_in_failure(StorageError::MissingPoll, &name), PostCandidateError::PollNotFound);
    assert_eq!(write_in_failure(StorageError::IdsExhausted, &name), PostCandidateError::Unexpected);
}
