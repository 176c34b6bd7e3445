use typ::metrics::{median_present, space_typed};
use typ::analysis::analyze;
use typ::prompt::Prompt;
use typ::session::{EndCondition, EventFlags, EventKind, Input, Key, SessionState};
use typ::store::sessions::{event_from_row, EventRow, SessionId};
use typ::store::settings::{check_profile_name, parse_words};
use typ::store::unix_now;

fn row<'a>(kind: &'a str, actual: Option<&'a str>) -> EventRow<'a> {
    EventRow {
        seq: 3,
        at_micros: 1_500,
        kind,
        expected: Some("a"),
        actual,
        word_index: 1,
        position: 2,
        flags: EventFlags::default(),
    }
}

#[test]
fn a_stored_event_row_reads_back_as_its_event() {
    let e = event_from_row(SessionId::from_raw(9), &row("char", Some("b"))).unwrap();
    assert_eq!(e.seq, 3);
    assert_eq!(e.at_micros, 1_500);
    assert_eq!(e.kind, EventKind::Char);
    assert_eq!((e.expected, e.actual), (Some('a'), Some('b')));
    assert_eq!((e.word_index, e.position), (1, 2));
    let b = event_from_row(SessionId::from_raw(9), &row("backspace", None)).unwrap();
    assert_eq!((b.kind, b.actual), (EventKind::Backspace, None));
}

#[test]
fn each_way_a_stored_event_row_is_unreadable_is_reported() {
    let id = SessionId::from_raw(9);
    let message = |r: EventRow| event_from_row(id, &r).unwrap_err().0;
    assert_eq!(message(row("keypress", Some("b"))), "unknown event kind \"keypress\"");
    assert_eq!(
        message(row("char", Some("bc"))),
        "event character column holds \"bc\", not one character"
    );
    assert_eq!(message(row("char", None)), "event 3 of session 9 is a char with no character");
    assert_eq!(
        message(EventRow { at_micros: -1, ..row("char", Some("b")) }),
        "at_micros -1 is negative"
    );
    assert_eq!(
        message(EventRow { expected: Some(""), ..row("char", Some("b")) }),
        "event character column holds \"\", not one character"
    );
    assert_eq!(
        message(EventRow { word_index: -4, ..row("char", Some("b")) }),
        "word_index -4 is negative"
    );
    assert_eq!(
        message(EventRow { position: -2, ..row("char", Some("b")) }),
        "position -2 is negative"
    );
}

#[test]
fn profile_names_are_plain_words() {
    assert!(check_profile_name("laptop").is_ok());
    assert!(check_profile_name("work-2.desk_b").is_ok());
    assert_eq!(
        check_profile_name("my profile").unwrap_err().0,
        "profile names use letters, digits, \".\", \"-\" and \"_\", not \"my profile\""
    );
    assert!(check_profile_name("").is_err());
    assert!(check_profile_name("café").is_err());
}

#[test]
fn a_typed_session_length_is_a_whole_number_in_range() {
    assert_eq!(parse_words("30").unwrap(), 30);
    assert_eq!(parse_words("+10").unwrap(), 10);
    assert_eq!(parse_words("200").unwrap(), 200);
    assert_eq!(
        parse_words("5").unwrap_err().0,
        "words must be a number from 10 to 200, not \"5\""
    );
    assert!(parse_words("201").is_err());
    assert!(parse_words("thirty").is_err());
    assert!(parse_words("").is_err());
    assert!(parse_words("99999999999999999999999").is_err());
}

#[test]
fn parsing_words_accepts_only_whole_numbers_in_the_range() {
    assert_eq!(parse_words("50").unwrap(), 50);
    assert_eq!(parse_words("10").unwrap(), 10);
    assert_eq!(parse_words("200").unwrap(), 200);
    for bad in ["9", "201", "abc", "50.0", "-50", "", " 50"] {
        let err = parse_words(bad).unwrap_err();
        assert!(err.0.contains("10"), "{bad:?}: {}", err.0);
        assert!(err.0.contains("200"), "{bad:?}: {}", err.0);
    }
}

#[test]
fn the_median_takes_only_the_latencies_present() {
    assert_eq!(median_present(&[]), None);
    assert_eq!(median_present(&[None, None]), None);
    assert_eq!(median_present(&[Some(30), None, Some(10), Some(20)]), Some(20));
    assert_eq!(median_present(&[Some(30), Some(10)]), Some(20));
    assert_eq!(median_present(&[Some(7), Some(8)]), Some(7));
}

#[test]
fn the_last_words_space_counts_only_when_it_was_typed() {
    let words = ["cat", "dog"];
    let mut state = SessionState::new(Prompt::new(&words), EndCondition::AfterWords(2));
    for (i, c) in "cat dog".chars().enumerate() {
        state.apply_event(Input::new(i as u64 * 100_000, Key::Char(c)));
    }
    let analysis = analyze(&state);
    assert!(space_typed(&analysis, 0));
    assert!(!space_typed(&analysis, 1));
}

#[test]
fn the_wall_clock_reads_as_seconds_after_the_epoch() {
    assert!(unix_now() > 1_600_000_000);
}
