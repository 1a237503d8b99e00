use syn_assert::text::{absent_message, expected_message, join_path, missing_message};
use syn_assert::utils::{CheckResult, Contains, StringSet};

fn failure(list: &[&str]) -> CheckResult {
    CheckResult::Failure(list.iter().map(|s| s.to_string()).collect())
}

fn messages(result: CheckResult) -> Vec<String> {
    result.into()
}

#[test]
fn compare_of_equal_texts_succeeds() {
    assert!(matches!(CheckResult::compare("main", "main"), CheckResult::Success));
    assert!(matches!(CheckResult::compare("", ""), CheckResult::Success));
}

#[test]
fn compare_of_different_texts_shows_both() {
    assert_eq!(
        messages(CheckResult::compare("not_main", "main")),
        vec!["Expected 'not_main', got 'main'".to_string()]
    );
    assert_eq!(
        messages(CheckResult::compare("a", "A")),
        vec!["Expected 'a', got 'A'".to_string()]
    );
}

#[test]
fn mismatch_always_fails() {
    assert_eq!(
        messages(CheckResult::mismatch("same", "same")),
        vec!["Expected 'same', got 'same'".to_string()]
    );
}

#[test]
fn missing_names_the_field() {
    assert_eq!(messages(CheckResult::missing("name")), vec!["Missing name".to_string()]);
    assert_eq!(messages(CheckResult::missing("")), vec!["Missing ".to_string()]);
}

#[test]
fn contains_reports_each_absent_element() {
    let mut actual = StringSet::new();
    assert!(actual.insert("a".to_string()));
    assert!(actual.insert("b".to_string()));
    assert!(!actual.insert("a".to_string()));

    let expected = vec!["b".to_string(), "c".to_string(), "a".to_string(), "d".to_string()];
    assert_eq!(
        messages(CheckResult::contains(actual, &expected)),
        vec!["Missing 'c'".to_string(), "Missing 'd'".to_string()]
    );
}

#[test]
fn contains_counts_the_expected_elements_outside_the_set() {
    let mut actual = StringSet::new();
    actual.insert("x".to_string());
    actual.insert("y".to_string());
    let expected = vec!["x".to_string(), "p".to_string(), "q".to_string(), "r".to_string()];
    assert_eq!(messages(CheckResult::contains(actual, &expected)).len(), 3);
}

#[test]
fn contains_of_nothing_succeeds() {
    let expected: Vec<String> = Vec::new();
    assert!(CheckResult::contains(StringSet::new(), &expected).as_bool());
    let mut actual = StringSet::new();
    actual.insert("a".to_string());
    assert!(CheckResult::contains(actual, &expected).as_bool());
}

#[test]
fn contains_takes_a_slice_as_the_container() {
    let actual = vec!["a".to_string(), "b".to_string(), "a".to_string()];
    let expected = vec!["a".to_string(), "z".to_string()];
    assert_eq!(
        messages(CheckResult::contains(actual.as_slice(), &expected)),
        vec!["Missing 'z'".to_string()]
    );
    assert!(actual.as_slice().contains(&"b".to_string()));
    assert!(!Contains::contains(&actual.as_slice(), &"c".to_string()));
}

#[test]
fn string_set_holds_what_was_inserted() {
    let mut set = StringSet::new();
    assert!(!set.contains(&"a".to_string()));
    assert!(set.insert("a".to_string()));
    assert!(set.contains(&"a".to_string()));
    assert!(!set.contains(&"A".to_string()));
    assert!(!set.insert("a".to_string()));
    assert!(set.contains(&"a".to_string()));
}

#[test]
fn any_succeeds_only_where_all_do() {
    assert!(CheckResult::any(Vec::new()).as_bool());
    assert!(CheckResult::any(vec![CheckResult::Success, CheckResult::Success]).as_bool());
    assert_eq!(
        messages(CheckResult::any(vec![
            failure(&["a", "b"]),
            CheckResult::Success,
            failure(&["c"]),
        ])),
        vec!["a".to_string(), "b".to_string(), "c".to_string()]
    );
}

#[test]
fn and_appends_the_messages() {
    assert!(CheckResult::Success.and(CheckResult::Success).as_bool());
    assert_eq!(
        messages(CheckResult::Success.and(failure(&["b"]))),
        vec!["b".to_string()]
    );
    assert_eq!(
        messages(failure(&["a"]).and(CheckResult::Success)),
        vec!["a".to_string()]
    );
    assert_eq!(
        messages(failure(&["a", "b"]).and(failure(&["c"]))),
        vec!["a".to_string(), "b".to_string(), "c".to_string()]
    );
}

#[test]
fn and_is_associative() {
    let left = failure(&["a"]).and(failure(&["b", "c"])).and(failure(&["d"]));
    let right = failure(&["a"]).and(failure(&["b", "c"]).and(failure(&["d"])));
    assert_eq!(left.as_bool(), right.as_bool());
    assert_eq!(
        messages(left),
        vec!["a".to_string(), "b".to_string(), "c".to_string(), "d".to_string()]
    );
    assert_eq!(
        messages(right),
        vec!["a".to_string(), "b".to_string(), "c".to_string(), "d".to_string()]
    );

    let left = CheckResult::Success.and(CheckResult::Success).and(failure(&["x"]));
    let right = CheckResult::Success.and(CheckResult::Success.and(failure(&["x"])));
    assert_eq!(messages(left), messages(right));
}

#[test]
fn and_makes_a_success_of_an_empty_failure() {
    let empty = CheckResult::Failure(Vec::new());
    assert!(!empty.as_bool());
    assert!(empty.and(CheckResult::Success).as_bool());
}

#[test]
fn plus_is_and() {
    assert!((CheckResult::Success + CheckResult::Success).as_bool());
    assert_eq!(
        messages(failure(&["a"]) + CheckResult::Success + failure(&["b"])),
        vec!["a".to_string(), "b".to_string()]
    );
}

#[test]
fn as_bool_tells_success_from_failure() {
    assert!(CheckResult::Success.as_bool());
    assert!(!failure(&["a"]).as_bool());
}

#[test]
fn outcome_from_messages_and_back() {
    assert!(matches!(CheckResult::from(Vec::new()), CheckResult::Success));
    match CheckResult::from(vec!["a".to_string()]) {
        CheckResult::Failure(failures) => assert_eq!(failures, vec!["a".to_string()]),
        CheckResult::Success => panic!("a message makes a failure"),
    }
    assert_eq!(Vec::<String>::from(CheckResult::Success), Vec::<String>::new());
    assert_eq!(
        Vec::<String>::from(failure(&["a", "b"])),
        vec!["a".to_string(), "b".to_string()]
    );
}

#[test]
fn message_texts() {
    assert_eq!(expected_message("x", "y"), "Expected 'x', got 'y'");
    assert_eq!(expected_message("", ""), "Expected '', got ''");
    assert_eq!(missing_message("my_attr"), "Missing 'my_attr'");
    assert_eq!(absent_message("block"), "Missing block");
}

#[test]
fn join_path_puts_two_colons_between_segments() {
    assert_eq!(join_path(&Vec::new()), "");
    assert_eq!(join_path(&vec!["my_attr".to_string()]), "my_attr");
    assert_eq!(
        join_path(&vec!["a_crate".to_string(), "my_other_attr".to_string()]),
        "a_crate::my_other_attr"
    );
    assert_eq!(
        join_path(&vec!["a".to_string(), "".to_string(), "c".to_string()]),
        "a::::c"
    );
}
