use pickypoll::util::first_duplicate;

#[test]
fn empty() {
    let empty: Vec<String> = vec![];
    let result = first_duplicate(&empty);
    assert!(result.is_none(), "Should return None for empty vector");
}

#[test]
fn finds_dupe() {
    let empty = vec!["🍦".to_string(), "🍪".to_string(), "🍪".to_string()];
    let result = first_duplicate(&empty).expect("Should find duplicate");
    assert_eq!("🍪", result);
}

#[test]
fn all_different_names_have_no_duplicate() {
    let names = vec!["cake".to_string(), "cookies".to_string(), "ice cream".to_string()];
    assert_eq!(first_duplicate(&names), None);
}

#[test]
fn first_repeat_wins_over_later_repeats() {
    let names = vec![
        "a".to_string(),
        "b".to_string(),
        "c".to_string(),
        "b".to_string(),
        "a".to_string(),
    ];
    assert_eq!(first_duplicate(&names), Some("b".to_string()));
}

#[test]
fn repeat_is_found_at_the_first_index_that_repeats() {
    let names = vec!["x".to_string(), "y".to_string(), "y".to_string(), "x".to_string(), "x".to_string()];
    assert_eq!(first_duplicate(&names), Some("y".to_string()));
}
