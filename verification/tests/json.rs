use typ::compose::Contamination;
use typ::store::json::{contamination, string_array, ReadProblem};

#[test]
fn string_arrays_read_back_with_escapes() {
    assert_eq!(string_array("[]").unwrap(), Vec::<String>::new());
    assert_eq!(
        string_array(r#"["th", " th", "a\"b", "c\\d"]"#).unwrap(),
        vec![
            String::from("th"),
            String::from(" th"),
            String::from("a\"b"),
            String::from("c\\d")
        ]
    );
    assert!(string_array(r#"["th""#).is_err());
    assert!(string_array(r#"[1]"#).is_err());
    assert!(string_array(r#"{"a":1}"#).is_err());
}

#[test]
fn contamination_reads_the_two_fields_it_needs_and_ignores_the_rest() {
    let c = contamination(
        r#"{"before":"targeted","after":null,"recent_word":true,"recent_patterns":["og"]}"#,
    )
    .unwrap();
    assert_eq!(
        c,
        Contamination {
            recently_targeted_word: true,
            recently_targeted_patterns: vec!["og".into()],
        }
    );
    assert!(contamination(r#"{"recent_word":true}"#).is_err());
    assert!(contamination(r#"{"recent_word":1,"recent_patterns":[]}"#).is_err());
    assert!(contamination(r#"[true]"#).is_err());
    assert!(contamination(r#"{"recent_word":true,"recent_patterns":[]} x"#).is_err());
}

#[test]
fn each_reading_problem_is_reported_by_its_kind() {
    assert_eq!(string_array("[\"a\", 2.5e3]"), Err(ReadProblem::NotAString));
    assert_eq!(string_array("{}"), Err(ReadProblem::NotAnArray));
    assert_eq!(contamination("[]"), Err(ReadProblem::NotAnObject));
    assert_eq!(
        contamination(r#"{"recent_patterns":[]}"#),
        Err(ReadProblem::NoRecentWord)
    );
    assert_eq!(
        contamination(r#"{"recent_word":false}"#),
        Err(ReadProblem::NoRecentPatterns)
    );
    assert_eq!(
        contamination(r#"{"recent_word":false,"recent_patterns":[true]}"#),
        Err(ReadProblem::RecentPatternNotAString)
    );
    assert_eq!(
        contamination(r#"{"recent_word":false,"recent_patterns":"og"}"#),
        Err(ReadProblem::RecentPatternsNotAnArray)
    );
    assert_eq!(
        contamination(r#"{"recent_word":"yes","recent_patterns":[]}"#),
        Err(ReadProblem::RecentWordNotABool)
    );
    assert!(string_array("[1e]").is_err(), "an exponent needs digits");
    assert!(string_array("[\"a\\q\"]").is_err(), "an unsupported escape");
    assert!(string_array("").is_err(), "nothing to read");
    assert_eq!(
        ReadProblem::NotAString.message(),
        "prompt_words JSON: expected a string"
    );
    // Later members override earlier ones of the same name.
    let c = contamination(
        r#"{"recent_word":true,"recent_patterns":["a"],"recent_word":false,"x":{"y":[1,-2.5,"z"]}}"#,
    )
    .unwrap();
    assert!(!c.recently_targeted_word);
    assert_eq!(c.recently_targeted_patterns, vec![String::from("a")]);
}
