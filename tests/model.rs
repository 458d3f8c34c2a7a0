use roommate_matcher::{InputError, PersonData, UnmatchedPeople};

fn person(name: &str, prefs: &[&str]) -> PersonData {
    PersonData::new(name.to_string(), prefs.iter().map(|p| p.to_string()).collect())
}

#[test]
fn constructors_agree_on_content() {
    let none = PersonData::with_no_preferences("a".to_string());
    let empty = PersonData::new("a".to_string(), vec![]);
    let some = PersonData::with_preferences("a".to_string(), vec!["b".to_string()]);
    assert_eq!(none, empty);
    assert_eq!(none.get_choice(0), None);
    assert_eq!(some.get_choice(0), Some(&"b".to_string()));
    assert_eq!(some.person_name(), "a");
    let kept_empty = PersonData::with_preferences("a".to_string(), vec![]);
    assert_eq!(kept_empty.get_choice(0), None);
}

#[test]
fn duplicate_keeps_the_record() {
    let p = person("a", &["b", "c"]);
    assert_eq!(p.duplicate(), p);
}

#[test]
fn try_create_keeps_every_name() {
    let people = UnmatchedPeople::try_create(vec![
        person("a", &["b"]),
        person("b", &["c", "a"]),
        person("c", &[]),
    ])
    .unwrap();
    assert_eq!(people.count(), 3);
    for n in ["a", "b", "c"] {
        assert_eq!(people.get(n).unwrap().person_name(), n);
    }
}

#[test]
fn try_create_errors_in_order() {
    assert_eq!(UnmatchedPeople::try_create(vec![]).err(), Some(InputError::NoData));
    assert_eq!(
        UnmatchedPeople::try_create(vec![person("a", &["a"]), person("b", &[]), person("b", &[])]).err(),
        Some(InputError::DuplicatePerson("b".to_string()))
    );
    assert_eq!(
        UnmatchedPeople::try_create(vec![person("a", &["b", "z"]), person("b", &["b"])]).err(),
        Some(InputError::ChoseMissingPerson {
            person_name: "a".to_string(),
            invalid_choice: "z".to_string(),
        })
    );
    assert_eq!(
        UnmatchedPeople::try_create(vec![person("a", &["b"]), person("b", &["b"])]).err(),
        Some(InputError::SelfChoice("b".to_string()))
    );
}

#[test]
fn removing_an_absent_name_twice_changes_nothing() {
    let mut people =
        UnmatchedPeople::try_create(vec![person("a", &["b"]), person("b", &[])]).unwrap();
    people.remove("zed");
    assert_eq!(people.count(), 2);
    people.remove("zed");
    assert_eq!(people.count(), 2);
    assert!(people.get("a").is_some() && people.get("b").is_some());
}

#[test]
fn removing_a_present_name() {
    let mut people =
        UnmatchedPeople::try_create(vec![person("a", &["b"]), person("b", &[])]).unwrap();
    people.remove("a");
    assert_eq!(people.count(), 1);
    assert!(people.get("a").is_none());
    people.remove("a");
    assert_eq!(people.count(), 1);
}

#[test]
fn traversal_is_a_snapshot() {
    let mut people = UnmatchedPeople::try_create(vec![
        person("a", &[]),
        person("b", &[]),
        person("c", &[]),
    ])
    .unwrap();
    let mut it = people.iterator();
    let first = it.next().unwrap();
    assert_eq!(first.person_name(), "a");
    people.remove("b");
    assert_eq!(it.next().unwrap().person_name(), "b");
    assert!(people.get("b").is_none());
    assert_eq!(it.next().unwrap().person_name(), "c");
    assert!(it.next().is_none());
    assert!(it.next().is_none());
}

#[test]
fn drain_empties_the_set() {
    let mut people =
        UnmatchedPeople::try_create(vec![person("x", &[]), person("y", &["x"])]).unwrap();
    let mut names = people.drain_all_names();
    names.sort();
    assert_eq!(names, vec!["x".to_string(), "y".to_string()]);
    assert_eq!(people.count(), 0);
    assert!(people.drain_all_names().is_empty());
}
