use typ::compose::{ComposedPrompt, ComposedWord, Contamination, WordRole};
use typ::prompt::Prompt;
use typ::scheduler::{SelectedTarget, TargetRole};
use typ::store::json::{contamination, string_array};
use typ::store::prompts::{contamination_json, json_string, json_strings};

fn word(role: WordRole) -> ComposedWord {
    ComposedWord { role, exposed_targets: Vec::new() }
}

#[test]
fn a_string_literal_escapes_backslashes_and_quotes_only() {
    assert_eq!(json_string("th"), "\"th\"");
    assert_eq!(json_string("a\"b"), "\"a\\\"b\"");
    assert_eq!(json_string("c\\d"), "\"c\\\\d\"");
    assert_eq!(json_string("x\ny"), "\"x\ny\"");
    assert_eq!(json_string(""), "\"\"");
}

#[test]
fn string_arrays_are_written_without_spaces() {
    assert_eq!(json_strings(&[]), "[]");
    let items = vec![
        String::from("th"),
        String::from(" th"),
        String::from("a\"b"),
        String::from("c\\d"),
    ];
    assert_eq!(json_strings(&items), r#"["th"," th","a\"b","c\\d"]"#);
}

#[test]
fn written_string_arrays_read_back_as_written() {
    let cases: Vec<Vec<String>> = vec![
        vec![],
        vec![String::from("")],
        vec![String::from("ou "), String::from("\"\\"), String::from("ing")],
        vec![String::from("tab\there"), String::from("né")],
    ];
    for items in cases {
        assert_eq!(string_array(&json_strings(&items)).unwrap(), items);
    }
}

#[test]
fn contamination_records_the_neighbouring_roles_or_null_at_the_edges() {
    let words = vec![word(WordRole::Targeted), word(WordRole::Probe), word(WordRole::Probe)];
    let c = Contamination {
        recently_targeted_word: true,
        recently_targeted_patterns: vec![String::from("og")],
    };
    assert_eq!(
        contamination_json(&c, &words, 1),
        r#"{"before":"targeted","after":"probe","recent_word":true,"recent_patterns":["og"]}"#
    );
    assert_eq!(
        contamination_json(&c, &words, 0),
        r#"{"before":null,"after":"probe","recent_word":true,"recent_patterns":["og"]}"#
    );
    let quiet = Contamination { recently_targeted_word: false, recently_targeted_patterns: vec![] };
    assert_eq!(
        contamination_json(&quiet, &words, 2),
        r#"{"before":"probe","after":null,"recent_word":false,"recent_patterns":[]}"#
    );
}

#[test]
fn written_contamination_reads_back_as_written() {
    let words = vec![word(WordRole::Probe), word(WordRole::Targeted)];
    for c in [
        Contamination { recently_targeted_word: false, recently_targeted_patterns: vec![] },
        Contamination {
            recently_targeted_word: true,
            recently_targeted_patterns: vec![String::from("a\"b"), String::from(" th")],
        },
    ] {
        for index in 0..3 {
            assert_eq!(contamination(&contamination_json(&c, &words, index)).unwrap(), c);
        }
    }
}

#[test]
fn a_probe_prompt_marks_every_word_a_probe_and_selects_nothing() {
    let composed: ComposedPrompt<f64> = ComposedPrompt::probes(Prompt::new(&["the", "cat", "sat"]));
    assert_eq!(composed.words.len(), 3);
    assert!(composed
        .words
        .iter()
        .all(|w| w.role == WordRole::Probe && w.exposed_targets.is_empty()));
    assert!(composed.targets.is_empty());
    assert!(composed.practised().is_empty());
}

#[test]
fn the_practised_targets_are_the_targets_and_the_exploration_target_in_order() {
    let target = |pattern: &str, role: TargetRole| SelectedTarget {
        pattern: pattern.to_string(),
        role,
        weakness_mean: 0.5,
        weakness_sd: 0.1,
        priority: 1.0,
        planned_dose: 6,
    };
    let mut composed: ComposedPrompt<f64> = ComposedPrompt::probes(Prompt::new(&["then"]));
    composed.targets = vec![
        target("th", TargetRole::Target),
        target("he", TargetRole::Deferred),
        target("en", TargetRole::Target),
        target("n ", TargetRole::Explore),
    ];
    let practised: Vec<String> = composed.practised().into_iter().map(|t| t.pattern).collect();
    assert_eq!(practised, vec!["th", "en", "n "]);
}
