use typ::model::config::{parse_flat_object, ConfigError};
use typ::model::{parent_of, MODEL_VERSION};
use typ::store::model::{feature_columns, feature_placeholders};
use typ::store::prompts::{dose, Context};
use typ::layout::Layout;
use typ::store::sessions::{index, non_negative, SessionId};
use typ::store::count;
use typ::display::{CursorShape, CursorStyle};
use typ::store::settings::{
    check_layout_change, cursor_blink_value, cursor_of, cursor_shape_value, layout_changes, words_in_range,
    words_of, words_value,
};
use typ::store::Profile;

fn pairs(items: &[(&str, &str)]) -> Vec<(String, String)> {
    items.iter().map(|(k, v)| (k.to_string(), v.to_string())).collect()
}

fn error_of(json: &str) -> String {
    match parse_flat_object(json) {
        Err(ConfigError(message)) => message,
        Ok(members) => panic!("{json} read as {members:?}"),
    }
}

#[test]
fn a_flat_object_splits_into_names_and_value_texts() {
    assert_eq!(
        parse_flat_object(r#"{"kappa": 4, "humidity": 0.7}"#).unwrap(),
        pairs(&[("kappa", "4"), ("humidity", "0.7")])
    );
    assert_eq!(parse_flat_object(r#"{"a":-1e3}"#).unwrap(), pairs(&[("a", "-1e3")]));
    assert_eq!(parse_flat_object("{}").unwrap(), pairs(&[]));
    assert_eq!(parse_flat_object("  {  }\n").unwrap(), pairs(&[]));
}

#[test]
fn each_malformed_member_is_named_in_its_message() {
    assert_eq!(error_of("[1]"), "not a JSON object");
    assert_eq!(error_of("{"), "not a JSON object");
    assert_eq!(error_of(r#"{"a" 1}"#), r#"member "\"a\" 1" has no colon"#);
    assert_eq!(error_of(r#"{"a":1,}"#), r#"member "" has no colon"#);
    assert_eq!(error_of("{a: 1}"), r#"key "a" is not a string"#);
    assert_eq!(error_of(r#"{"a"b": 1}"#), r#"key "\"a\"b\"" is not a string"#);
    assert_eq!(error_of(r#"{"a": "x"}"#), r#"a: "\"x\"" is not a number"#);
    assert_eq!(error_of(r#"{"a": }"#), r#"a: "" is not a number"#);
    assert_eq!(ConfigError("x".to_string()).message(), "malformed config: x");
}

#[test]
fn columns_that_hold_counts_refuse_negative_values() {
    assert_eq!(count(3, "sessions").unwrap(), 3);
    assert_eq!(count(-2, "sessions").unwrap_err().0, "sessions -2 is negative");
    assert_eq!(dose(0, "planned_dose").unwrap(), 0);
    assert_eq!(dose(-1, "planned_dose").unwrap_err().0, "planned_dose -1 is negative");
    assert_eq!(index(7, "position").unwrap(), 7);
    assert_eq!(index(i64::MIN, "position").unwrap_err().0, "position -9223372036854775808 is negative");
    assert_eq!(non_negative(12, "at_micros").unwrap(), 12);
    assert_eq!(non_negative(-5, "at_micros").unwrap_err().0, "at_micros -5 is negative");
}

#[test]
fn a_prompt_context_carries_this_builds_versions() {
    let c = Context::current(25, "qwerty");
    assert_eq!(c.word_count, 25);
    assert_eq!(c.corpus_version, typ::corpus::CORPUS_VERSION);
    assert_eq!(c.model_version, MODEL_VERSION);
    assert_eq!(c.layout, "qwerty");
}

#[test]
fn a_patterns_parent_drops_its_first_character() {
    assert_eq!(parent_of("ing"), "ng");
    assert_eq!(parent_of(" t"), "t");
    assert_eq!(parent_of("é"), "");
    assert_eq!(parent_of(""), "");
}

#[test]
fn feature_columns_and_placeholders_follow_feature_order() {
    assert_eq!(
        feature_columns(),
        "first_of_word, last_of_word, word_length, log_word_frequency, boundary, \
         same_finger, same_hand, row_change, key_distance"
    );
    assert_eq!(feature_placeholders(5), "?5, ?6, ?7, ?8, ?9, ?10, ?11, ?12, ?13");
    assert_eq!(feature_placeholders(1), "?1, ?2, ?3, ?4, ?5, ?6, ?7, ?8, ?9");
}

#[test]
fn a_session_length_is_stored_in_decimal_and_reads_back() {
    for n in [10, 50, 199, 200] {
        let text = words_value(n).unwrap();
        assert_eq!(text, n.to_string());
        assert_eq!(words_in_range(&text), Some(n));
    }
    assert_eq!(
        words_value(9).unwrap_err().0,
        "words must be a number from 10 to 200, not 9"
    );
    assert_eq!(
        words_value(201).unwrap_err().0,
        "words must be a number from 10 to 200, not 201"
    );
}

#[test]
fn a_session_id_is_shown_in_decimal_and_parses_back() {
    for raw in [1, 12, 0, -7, i64::MAX, i64::MIN] {
        let id = SessionId::from_raw(raw);
        let text = id.text();
        assert_eq!(text, raw.to_string());
        assert_eq!(SessionId::parse(&text), Some(id));
    }
}

#[test]
fn a_layout_reads_back_from_its_name() {
    for layout in Layout::all() {
        assert_eq!(Layout::by_name(layout.name()), Some(layout));
    }
    assert_eq!(Layout::by_name("dvorak"), None);
}

fn profile(name: &str, layout: &str) -> Profile {
    Profile::new(1, name.to_string(), layout.to_string(), "words".to_string())
}

#[test]
fn cursor_settings_store_known_names_and_refuse_others_with_the_choices() {
    assert_eq!(cursor_shape_value("block").unwrap(), "block");
    assert_eq!(
        cursor_shape_value("bar").unwrap_err().0,
        "unknown cursor shape \"bar\"; the shapes are block, beam, underline"
    );
    assert_eq!(cursor_blink_value("off").unwrap(), "off");
    assert_eq!(
        cursor_blink_value("maybe").unwrap_err().0,
        "cursor blink is on or off, not \"maybe\""
    );
}

#[test]
fn the_stored_cursor_reads_back_with_defaults_for_unset_values() {
    assert_eq!(
        cursor_of(None, None).unwrap(),
        CursorStyle { shape: CursorShape::Beam, blink: false }
    );
    assert_eq!(
        cursor_of(Some("underline"), Some("on")).unwrap(),
        CursorStyle { shape: CursorShape::Underline, blink: true }
    );
    assert_eq!(
        cursor_of(Some("x"), Some("on")).unwrap_err().0,
        "the cursor shape setting is \"x\""
    );
    assert_eq!(
        cursor_of(None, Some("yes")).unwrap_err().0,
        "the cursor blink setting is \"yes\""
    );
}

#[test]
fn a_stored_session_length_reads_back_or_is_reported_corrupt() {
    let p = profile("laptop", "qwerty");
    assert_eq!(words_of(&p, None).unwrap(), 50);
    assert_eq!(words_of(&p, Some("30")).unwrap(), 30);
    assert_eq!(
        words_of(&p, Some("5")).unwrap_err().0,
        "profile \"laptop\" has the session length \"5\""
    );
}

#[test]
fn a_layout_changes_only_before_typing_and_only_to_a_known_layout() {
    let p = profile("laptop", "qwerty");
    assert!(!layout_changes(&p, "qwerty"));
    assert!(layout_changes(&p, "dvorak"));
    assert_eq!(
        check_layout_change(&p, "dvorak", true).unwrap_err().0,
        "profile \"laptop\" has sessions typed on qwerty; a layout cannot change after that, so use another profile for dvorak"
    );
    assert_eq!(
        check_layout_change(&p, "dvorak", false).unwrap_err().0,
        "unknown layout \"dvorak\"; the layouts are qwerty"
    );
    let fresh = profile("new", "dvorak");
    assert!(check_layout_change(&fresh, "qwerty", false).is_ok());
}
