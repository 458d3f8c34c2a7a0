use roommate_matcher::input::parser::parse;
use roommate_matcher::logic::match_roommates;
use roommate_matcher::{
    match_roommates_from_csv_lines, Assignment, InputError, MatchOutcome, RoommateError,
};
use std::collections::BTreeSet;

fn run(lines: &[&str]) -> Result<MatchOutcome, RoommateError> {
    match_roommates_from_csv_lines(lines.iter().map(|l| l.to_string()).collect())
}

fn pair_set(outcome: &MatchOutcome) -> BTreeSet<BTreeSet<String>> {
    outcome
        .matches
        .iter()
        .map(|Assignment(a, b)| [a.clone(), b.clone()].into_iter().collect())
        .collect()
}

fn name_set(names: &[&str]) -> BTreeSet<String> {
    names.iter().map(|n| n.to_string()).collect()
}

fn check_partition(outcome: &MatchOutcome, all: &[&str]) {
    let mut seen: Vec<String> = Vec::new();
    for Assignment(a, b) in &outcome.matches {
        seen.push(a.clone());
        seen.push(b.clone());
    }
    seen.extend(outcome.unmatched.iter().cloned());
    let set: BTreeSet<String> = seen.iter().cloned().collect();
    assert_eq!(set.len(), seen.len());
    assert_eq!(set, name_set(all));
}

#[test]
fn mutual_first_choices_are_paired() {
    let outcome = run(&["alice,bob", "bob,alice"]).unwrap();
    let expected: BTreeSet<BTreeSet<String>> = [name_set(&["alice", "bob"])].into_iter().collect();
    assert_eq!(pair_set(&outcome), expected);
    assert!(outcome.unmatched.is_empty());
}

#[test]
fn one_sided_choices_stay_unmatched() {
    let outcome = run(&["alice,bob", "bob,carol", "carol"]).unwrap();
    assert!(outcome.matches.is_empty());
    let left: BTreeSet<String> = outcome.unmatched.iter().cloned().collect();
    assert_eq!(left, name_set(&["alice", "bob", "carol"]));
    assert_eq!(outcome.unmatched.len(), 3);
}

#[test]
fn choice_of_missing_person_fails() {
    assert_eq!(
        run(&["alice,bob"]).err(),
        Some(RoommateError::Input(InputError::ChoseMissingPerson {
            person_name: "alice".to_string(),
            invalid_choice: "bob".to_string(),
        }))
    );
}

#[test]
fn self_choice_fails() {
    assert_eq!(
        run(&["alice,alice"]).err(),
        Some(RoommateError::Input(InputError::SelfChoice("alice".to_string())))
    );
}

#[test]
fn duplicate_person_fails() {
    assert_eq!(
        run(&["alice,bob", "alice,carol"]).err(),
        Some(RoommateError::Input(InputError::DuplicatePerson("alice".to_string())))
    );
}

#[test]
fn no_lines_fail() {
    assert_eq!(run(&[]).err(), Some(RoommateError::Input(InputError::NoData)));
}

#[test]
fn malformed_line_fails() {
    assert_eq!(
        run(&["alice", " ,bob"]).err(),
        Some(RoommateError::Input(InputError::BadLine {
            details: "empty line".to_string(),
            line: " ,bob".to_string(),
        }))
    );
}

#[test]
fn mutual_pair_is_found_once_in_a_crowd() {
    let all = ["ann", "ben", "cat", "dan", "eve"];
    let outcome = run(&["ann,ben,cat", "ben,cat,ann", "cat,ben", "dan,eve,ann", "eve,dan"]).unwrap();
    // ben and cat choose each other first; so do dan and eve.
    let expected: BTreeSet<BTreeSet<String>> =
        [name_set(&["ben", "cat"]), name_set(&["dan", "eve"])].into_iter().collect();
    assert_eq!(pair_set(&outcome), expected);
    assert_eq!(outcome.matches.len(), 2);
    assert_eq!(outcome.unmatched, vec!["ann".to_string()]);
    check_partition(&outcome, &all);
}

#[test]
fn first_of_a_pair_is_the_one_visited_first() {
    let outcome = run(&["x", "b,a", "a,b"]).unwrap();
    assert_eq!(outcome.matches, vec![Assignment("b".to_string(), "a".to_string())]);
    assert_eq!(outcome.unmatched, vec!["x".to_string()]);
}

#[test]
fn only_first_choices_count() {
    let all = ["a", "b", "c"];
    let outcome = run(&["a,c,b", "b,c,a", "c,a"]).unwrap();
    let expected: BTreeSet<BTreeSet<String>> = [name_set(&["a", "c"])].into_iter().collect();
    assert_eq!(pair_set(&outcome), expected);
    assert_eq!(outcome.unmatched, vec!["b".to_string()]);
    check_partition(&outcome, &all);
}

#[test]
fn match_roommates_uses_up_the_set() {
    let people = parse(vec!["p,q".to_string(), "q,p".to_string(), "r".to_string()]).unwrap();
    let outcome = match_roommates(people).unwrap();
    assert_eq!(outcome.matches, vec![Assignment("p".to_string(), "q".to_string())]);
    assert_eq!(outcome.unmatched, vec!["r".to_string()]);
}

#[test]
fn render_lists_pairs_then_unmatched() {
    let outcome = MatchOutcome {
        matches: vec![
            Assignment("alice".to_string(), "bob".to_string()),
            Assignment("carol".to_string(), "dan".to_string()),
        ],
        unmatched: vec!["eve".to_string(), "fay".to_string()],
    };
    assert_eq!(
        outcome.render(),
        "-- Matches --\nalice & bob\ncarol & dan\n\n-- Unmatched --\neve\nfay"
    );
}

#[test]
fn render_of_empty_outcome() {
    let outcome = MatchOutcome { matches: vec![], unmatched: vec![] };
    assert_eq!(outcome.render(), "-- Matches --\n\n-- Unmatched --");
}
