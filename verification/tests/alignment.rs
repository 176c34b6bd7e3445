use typ::analysis::alignment::{align, best_alignments};
use typ::analysis::attempt::reconstruct;
use typ::analysis::{attributed_pattern, differences, Edit};
use typ::prompt::Prompt;
use typ::scheduler::{copy_target, SelectedTarget, TargetRole};
use typ::session::{EndCondition, Input, Key, SessionState};
use typ::store::json::{read_document, JsonValue};
use typ::store::seconds_to_store;

fn chars(s: &str) -> Vec<char> {
    s.chars().collect()
}

fn text(c: &[char]) -> String {
    c.iter().collect()
}

#[test]
fn a_swapped_pair_aligns_as_one_transposition() {
    let (edits, alignments) = align(&chars("thier"), &chars("their"));
    assert_eq!(edits, vec![(Edit::Transposition { slot: 3 }, 1)]);
    assert_eq!(alignments, 1);
}

#[test]
fn a_wrong_character_aligns_as_a_substitution_at_its_slot() {
    let (edits, alignments) = align(&chars("cxt"), &chars("cat"));
    assert_eq!(edits, vec![(Edit::Substitution { slot: 1, actual: 'x' }, 1)]);
    assert_eq!(alignments, 1);
}

#[test]
fn a_missing_character_aligns_as_an_omission() {
    let (edits, alignments) = align(&chars("ct"), &chars("cat"));
    assert_eq!(edits, vec![(Edit::Omission { slot: 1 }, 1)]);
    assert_eq!(alignments, 1);
}

#[test]
fn a_doubled_character_is_an_extra_put_as_late_as_it_can_go() {
    let (edits, alignments) = align(&chars("caat"), &chars("cat"));
    assert_eq!(edits, vec![(Edit::Insertion { slot: 2, actual: 'a' }, 1)]);
    assert_eq!(alignments, 1);
}

#[test]
fn an_exact_attempt_has_one_empty_alignment() {
    let best = best_alignments(&chars("typing"), &chars("typing"));
    assert!(best.key.is_empty());
    assert_eq!(best.alignments, vec![Vec::<Edit>::new()]);
    assert_eq!(align(&chars("typing"), &chars("typing")), (Vec::new(), 1));
}

#[test]
fn differences_are_the_positions_wrong_missing_or_extra() {
    assert_eq!(differences(&chars("cxtt"), &chars("cat")), vec![1, 3]);
    assert_eq!(differences(&chars("c"), &chars("cat")), vec![1, 2]);
    assert!(differences(&chars("cat"), &chars("cat")).is_empty());
}

#[test]
fn an_error_is_charged_to_the_pattern_ending_at_its_slot() {
    let prompt = Prompt::new(&["cat", "their"]);
    let sub = Edit::Substitution { slot: 1, actual: 'x' };
    assert_eq!(attributed_pattern(&prompt, 0, sub), " ca");
    assert_eq!(attributed_pattern(&prompt, 1, Edit::Transposition { slot: 3 }), "ei");
}

#[test]
fn a_words_attempt_is_rebuilt_from_the_events() {
    let mut state = SessionState::new(Prompt::new(&["cat", "dog"]), EndCondition::AfterWords(2));
    let script = [
        Key::Char('c'),
        Key::Char('x'),
        Key::Backspace,
        Key::Char('a'),
        Key::Char('t'),
        Key::Char(' '),
        Key::Char('d'),
    ];
    for (i, key) in script.into_iter().enumerate() {
        state.apply_event(Input::new(i as u64 * 100_000, key));
    }
    let r = reconstruct(&state);
    assert_eq!(text(&r.words[0].history), "cxat");
    assert_eq!(text(&r.words[0].first_attempt), "cxt");
    assert_eq!(r.words[0].submitted_text.as_deref().map(text), Some("cat".to_string()));
    assert_eq!(text(&r.words[1].history), "d");
    assert_eq!(r.words[1].submitted_text, None);
}

#[test]
fn a_clock_reading_is_stored_as_seconds_that_fit() {
    assert_eq!(seconds_to_store(None), 0);
    assert_eq!(seconds_to_store(Some(1_700_000_000)), 1_700_000_000);
    assert_eq!(seconds_to_store(Some(u64::MAX)), i64::MAX);
}

#[test]
fn a_json_document_reads_into_its_values() {
    let doc = read_document("{\"a\": [1, true, null, \"x\\\"y\"]}").ok().unwrap();
    let JsonValue::Object(members) = doc else {
        panic!("not an object");
    };
    assert_eq!(members.len(), 1);
    assert_eq!(members[0].0, "a");
    let JsonValue::Array(items) = &members[0].1 else {
        panic!("not an array");
    };
    assert!(matches!(&items[0], JsonValue::Number(n) if n == "1"));
    assert!(matches!(items[1], JsonValue::Bool(true)));
    assert!(matches!(items[2], JsonValue::Null));
    assert!(matches!(&items[3], JsonValue::Str(s) if s == "x\"y"));
    assert!(read_document("[1,").is_err());
    assert!(read_document("[] x").is_err());
}

#[test]
fn a_copied_target_is_the_same_target() {
    let t = SelectedTarget {
        pattern: "th".to_string(),
        role: TargetRole::Explore,
        weakness_mean: 0.5f64,
        weakness_sd: 0.25,
        priority: 1.5,
        planned_dose: 3,
    };
    assert_eq!(copy_target(&t), t);
}

#[test]
fn an_edit_reads_as_what_happened_and_where() {
    assert_eq!(Edit::Substitution { slot: 2, actual: 'x' }.text(), "substitution x at 2");
    assert_eq!(Edit::Transposition { slot: 3 }.text(), "transposition at 2-3");
    assert_eq!(Edit::Omission { slot: 0 }.text(), "omission at 0");
    assert_eq!(Edit::Insertion { slot: 12, actual: 'q' }.text(), "insertion q before 12");
}
