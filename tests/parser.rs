use roommate_matcher::input::parser::{parse, parse_lines, try_parse_line};
use roommate_matcher::{InputError, PersonData};

fn strings(lines: &[&str]) -> Vec<String> {
    lines.iter().map(|l| l.to_string()).collect()
}

#[test]
fn test_parse_ok_permutations() {
    let lines: Vec<String> = strings(&[
        "1a,1b,1c,1d",
        "2a,2b,2c,2d,",
        "3a,,,",
        "4a,",
        "5a",
        " 6a ",
        " 7a, ",
        " 8a, 8b ",
        " 9a,,,9b ",
    ]);

    let people = parse_lines(lines).unwrap();
    assert_eq!(
        people,
        vec![
            PersonData::new("1a".into(), vec!["1b".into(), "1c".into(), "1d".into()]),
            PersonData::new("2a".into(), vec!["2b".into(), "2c".into(), "2d".into()]),
            PersonData::new("3a".into(), vec![]),
            PersonData::new("4a".into(), vec![]),
            PersonData::new("5a".into(), vec![]),
            PersonData::new("6a".into(), vec![]),
            PersonData::new("7a".into(), vec![]),
            PersonData::new("8a".into(), vec!["8b".into()]),
            PersonData::new("9a".into(), vec!["9b".into()]),
        ]
    );
}

#[test]
fn test_parse_err_permutations() {
    let invalid_files: Vec<Vec<String>> = vec![
        vec!["".into()],
        vec![" ".into()],
        vec![",".into()],
        vec![" , ".into()],
        vec![",name".into()],
    ];

    for invalid_file in invalid_files {
        parse_lines(invalid_file).unwrap_err();
    }
}

#[test]
fn bad_line_carries_the_line() {
    let err = try_parse_line(" ,bob".to_string()).unwrap_err();
    assert_eq!(
        err,
        InputError::BadLine { details: "empty line".to_string(), line: " ,bob".to_string() }
    );
}

#[test]
fn first_bad_line_is_reported() {
    let err = parse_lines(strings(&["alice", "", "  "])).unwrap_err();
    assert_eq!(err, InputError::BadLine { details: "empty line".to_string(), line: "".to_string() });
}

#[test]
fn unicode_white_space_is_trimmed() {
    let p = try_parse_line("\u{3000}alice\t,\u{a0}bob \n, ,\u{2003}".to_string()).unwrap();
    assert_eq!(p, PersonData::new("alice".into(), vec!["bob".into()]));
    assert_eq!(p.person_name(), "alice");
}

#[test]
fn inner_white_space_is_kept() {
    let p = try_parse_line("mary ann , john paul".to_string()).unwrap();
    assert_eq!(p.person_name(), "mary ann");
    assert_eq!(p.get_choice(0), Some(&"john paul".to_string()));
    assert_eq!(p.get_choice(1), None);
}

#[test]
fn gap_in_preferences_collapses() {
    let p = try_parse_line("a,,b".to_string()).unwrap();
    assert_eq!(p, PersonData::new("a".into(), vec!["b".into()]));
}

#[test]
fn parse_no_lines_is_no_data() {
    assert_eq!(parse(vec![]).err(), Some(InputError::NoData));
}

#[test]
fn parse_round_trip_keeps_each_line() {
    let people = parse(strings(&["alice, bob ,carol", "bob,alice", "carol,,"])).unwrap();
    assert_eq!(people.count(), 3);
    let a = people.get("alice").unwrap();
    assert_eq!(a.person_name(), "alice");
    assert_eq!(a.get_choice(0), Some(&"bob".to_string()));
    assert_eq!(a.get_choice(1), Some(&"carol".to_string()));
    assert_eq!(a.get_choice(2), None);
    let b = people.get("bob").unwrap();
    assert_eq!(b.get_choice(0), Some(&"alice".to_string()));
    assert_eq!(b.get_choice(1), None);
    let c = people.get("carol").unwrap();
    assert_eq!(c.get_choice(0), None);
    assert!(people.get("dave").is_none());
}

#[test]
fn parse_reports_batch_errors() {
    assert_eq!(
        parse(strings(&["alice,bob", "alice,carol"])).err(),
        Some(InputError::DuplicatePerson("alice".to_string()))
    );
    assert_eq!(
        parse(strings(&["alice,alice"])).err(),
        Some(InputError::SelfChoice("alice".to_string()))
    );
    assert_eq!(
        parse(strings(&["alice,bob"])).err(),
        Some(InputError::ChoseMissingPerson {
            person_name: "alice".to_string(),
            invalid_choice: "bob".to_string(),
        })
    );
}

#[test]
fn bad_line_comes_before_batch_errors() {
    let err = parse(strings(&["alice,alice", ","])).err();
    assert_eq!(err, Some(InputError::BadLine { details: "empty line".to_string(), line: ",".to_string() }));
}
