use std::collections::BTreeMap;

use typ::prompt::Prompt;
use typ::scheduler::{
    achieved_doses, exposures_in_word, same_chain, word_exposures, SelectedTarget, TargetRole,
    TrainingEvent, TrainingHistory, WordChains,
};
use typ::session::{EndCondition, Input, Key, SessionState};

/// Types `script` against `prompt` at 200 ms per keystroke; `⎋` interrupts.
fn typed(prompt: &str, script: &str) -> SessionState {
    let words: Vec<&str> = prompt.split(' ').collect();
    let mut state = SessionState::new(Prompt::new(&words), EndCondition::AfterWords(usize::MAX));
    for (i, c) in script.chars().enumerate() {
        let key = match c {
            '⎋' => Key::Interrupt,
            c => Key::Char(c),
        };
        state.apply_event(Input::new(i as u64 * 200_000, key));
    }
    state
}

fn target(pattern: &str, role: TargetRole, weakness_mean: f64) -> SelectedTarget<f64> {
    SelectedTarget {
        pattern: pattern.into(),
        role,
        weakness_mean,
        weakness_sd: 0.1,
        priority: 1.0,
        planned_dose: if role == TargetRole::Deferred { 0 } else { 6 },
    }
}

fn event(pattern: &str, role: TargetRole, achieved_dose: usize) -> TrainingEvent<f64> {
    TrainingEvent {
        target: target(pattern, role, 0.5),
        achieved_dose,
    }
}

/// The default scheduler config's deferral window.
const DEFERRAL_WINDOW: usize = 3;

fn words(items: &[&str]) -> Vec<String> {
    items.iter().map(|w| w.to_string()).collect()
}

fn exposures(word: &str, targets: &[SelectedTarget<f64>]) -> BTreeMap<String, usize> {
    word_exposures(word, targets).into_iter().collect()
}

fn expected(items: &[(&str, usize)]) -> BTreeMap<String, usize> {
    items.iter().map(|(p, n)| (p.to_string(), *n)).collect()
}

#[test]
fn a_chain_relates_a_pattern_to_its_suffixes_in_both_directions_and_nothing_else() {
    assert!(
        same_chain("th", "ath"),
        "bigram against the trigram above it"
    );
    assert!(
        same_chain("ath", "th"),
        "trigram against the bigram below it"
    );
    assert!(same_chain("h", "ath"));
    assert!(
        !same_chain("th", "the"),
        "`the` backs off to `he`, not `th`"
    );
    assert!(!same_chain("th", "th"), "a pattern is not its own ancestor");
    assert!(!same_chain(" t", "t "));
}

#[test]
fn target_roles_have_stable_names_that_round_trip() {
    for (role, name) in [
        (TargetRole::Target, "target"),
        (TargetRole::Deferred, "deferred"),
        (TargetRole::Explore, "explore"),
    ] {
        assert_eq!(role.name(), name);
        assert_eq!(TargetRole::from_name(name), Some(role));
    }
    assert_eq!(TargetRole::from_name("Target"), None);
    assert!(TargetRole::Target.is_practised());
    assert!(TargetRole::Explore.is_practised());
    assert!(!TargetRole::Deferred.is_practised());
}

// --- Achieved dose ----------------------------------------------------------------

#[test]
fn achieved_dose_counts_typed_exposures_of_the_deepest_selected_pattern_at_most_twice_per_word() {
    let targets = [
        target("at", TargetRole::Target, 0.5),
        target("hat", TargetRole::Explore, 0.5),
        target("ta", TargetRole::Deferred, 0.0),
    ];
    // The `t` of "that" is a `hat` slot, deeper than `at`, so `at` gets
    // nothing from it; "atatat" has three `at` slots and two `ta` slots,
    // of which two each count; "hat" is never reached.
    let state = typed("that atatat hat", "that atatat ⎋");
    let events = achieved_doses(&state, &targets);
    let doses: Vec<(&str, usize)> = events
        .iter()
        .map(|e| (e.target.pattern.as_str(), e.achieved_dose))
        .collect();
    assert_eq!(doses, vec![("at", 2), ("hat", 1), ("ta", 2)]);
}

#[test]
fn a_deferred_candidate_in_a_targets_chain_does_not_take_the_targets_exposures() {
    // `hat` is only withheld, so the `t` of "that" still exposes the target
    // `at`, and `hat` records its own incidental exposure of the same slot.
    let targets = [
        target("at", TargetRole::Target, 0.5),
        target("hat", TargetRole::Deferred, 0.0),
    ];
    let events = achieved_doses(&typed("that", "that"), &targets);
    let doses: Vec<(&str, usize)> = events
        .iter()
        .map(|e| (e.target.pattern.as_str(), e.achieved_dose))
        .collect();
    assert_eq!(doses, vec![("at", 1), ("hat", 1)]);
}

#[test]
fn the_following_space_is_a_slot_when_it_was_typed() {
    let targets = [target("t ", TargetRole::Target, 0.5)];
    let dose = |state: &SessionState| achieved_doses(state, &targets)[0].achieved_dose;
    // Between words the space is always typed; after the last word only
    // when the session ended on it (accepting an error), since a session
    // completed on its final character records nothing more.
    assert_eq!(dose(&typed("cat dog", "cat dog")), 1);
    assert_eq!(dose(&typed("cat", "cat")), 0);
    assert_eq!(dose(&typed("cat", "cxt ")), 1);
    assert_eq!(dose(&typed("cat cat", "cat cat ")), 1);
}

#[test]
fn every_selected_pattern_gets_an_event_even_with_no_exposure() {
    let targets = [
        target("xq", TargetRole::Target, 0.5),
        target("zz", TargetRole::Explore, 0.5),
    ];
    let events = achieved_doses(&typed("cat", "cat"), &targets);
    assert_eq!(events.len(), 2);
    assert!(events.iter().all(|e| e.achieved_dose == 0));
    assert_eq!(events[0].target, targets[0]);
}

// --- Word exposures ---------------------------------------------------------------

#[test]
fn a_words_slot_exposes_only_the_deepest_practiced_pattern_in_its_chain() {
    let targets = [
        target("at", TargetRole::Target, 0.5),
        target("hat", TargetRole::Explore, 0.5),
    ];
    // The `t` of "that" is a `hat` slot, so `at` gets nothing from it; in
    // "cat" the same slot's chain is `cat`, so `at` is the deepest.
    assert_eq!(exposures("that", &targets), expected(&[("hat", 1)]));
    assert_eq!(exposures("cat", &targets), expected(&[("at", 1)]));
}

#[test]
fn at_most_two_slots_of_a_word_count_toward_one_pattern() {
    let targets = [target("at", TargetRole::Target, 0.5)];
    assert_eq!(exposures("atatat", &targets), expected(&[("at", 2)]));
}

#[test]
fn a_word_standing_alone_is_read_with_a_space_either_side() {
    let targets = [
        target(" t", TargetRole::Target, 0.5),
        target("t ", TargetRole::Target, 0.5),
        target("og", TargetRole::Deferred, 0.0),
    ];
    // Word-initial and word-final patterns are exposed; a deferred
    // candidate is not practiced and so exposes nothing here.
    assert_eq!(exposures("tot", &targets), expected(&[(" t", 1), ("t ", 1)]));
    assert!(word_exposures("dog", &targets).is_empty());
}

#[test]
fn a_word_has_one_chain_per_slot_with_one_space_before_it() {
    let chains = WordChains::new("cat");
    assert_eq!(chains.chains(), [" c", " ca", "cat", "at "]);
    assert_eq!(WordChains::new("a").chains(), [" a", " a "]);
}

#[test]
fn a_level_both_practised_and_deferred_is_exposed_twice_by_one_chain() {
    let chains = vec![String::from("cat")];
    let practised = vec![String::from("at")];
    let deferred = vec![String::from("at"), String::from("t")];
    let counted: BTreeMap<String, usize> =
        exposures_in_word(&chains, &practised, &deferred).into_iter().collect();
    assert_eq!(counted, expected(&[("at", 2), ("t", 1)]));
}

// --- Training history -------------------------------------------------------------

#[test]
fn a_deferral_window_runs_down_with_every_session_even_one_that_selected_nothing() {
    let mut history = TrainingHistory::new();
    history.record(&[event("th", TargetRole::Deferred, 0)], &[], DEFERRAL_WINDOW);
    assert_eq!(history.pattern("th").unwrap().deferral_remaining, 2);
    history.record(&[], &[], DEFERRAL_WINDOW);
    assert_eq!(history.pattern("th").unwrap().deferral_remaining, 1);
    history.record(&[], &[], DEFERRAL_WINDOW);
    assert!(!history.is_deferred("th"));
    // Freed, it can be deferred afresh for a full window.
    history.record(&[event("th", TargetRole::Deferred, 0)], &[], DEFERRAL_WINDOW);
    assert_eq!(history.pattern("th").unwrap().deferral_remaining, 2);
}

#[test]
fn an_exploration_session_counts_as_practice_and_a_deferral_does_not() {
    let mut history = TrainingHistory::new();
    history.record(&[event("th", TargetRole::Explore, 4)], &[], DEFERRAL_WINDOW);
    history.record(&[event("th", TargetRole::Deferred, 3)], &[], DEFERRAL_WINDOW);
    let h = history.pattern("th").unwrap();
    assert_eq!((h.sessions_practised, h.achieved_dose), (1, 4));
    assert_eq!(h.practised_means, vec![0.5]);
    assert_eq!(h.last_practised, Some(1));
    assert_eq!(history.sessions(), 2);
}

#[test]
fn the_history_answers_whether_a_pattern_or_word_was_practiced_within_recent_sessions() {
    let mut history: TrainingHistory<f64> = TrainingHistory::new();
    assert!(!history.practised_within("th", 10));
    assert!(!history.targeted_word_within("the", 10));

    history.record(
        &[event("th", TargetRole::Target, 6)],
        &words(&["the", "that"]),
        DEFERRAL_WINDOW,
    );
    history.record(&[event("he", TargetRole::Deferred, 0)], &[], DEFERRAL_WINDOW);
    history.record(&[event("an", TargetRole::Explore, 6)], &words(&["and"]), DEFERRAL_WINDOW);
    // Three sessions recorded: `th` and "the" are from the first, so they
    // are within the last three sessions but not the last two; a deferral
    // is not practice.
    assert!(history.practised_within("th", 3));
    assert!(!history.practised_within("th", 2));
    assert!(history.practised_within("an", 1));
    assert!(!history.practised_within("he", 3));
    assert!(history.targeted_word_within("the", 3));
    assert!(history.targeted_word_within("that", 3));
    assert!(!history.targeted_word_within("the", 2));
    assert!(history.targeted_word_within("and", 1));
    assert!(!history.targeted_word_within("dog", 3));
}

#[test]
fn deferrals_and_recent_practice_are_listed_in_pattern_order() {
    let mut history = TrainingHistory::new();
    history.record(
        &[
            event("th", TargetRole::Deferred, 0),
            event("an", TargetRole::Target, 2),
            event("ab", TargetRole::Deferred, 0),
            event("zz", TargetRole::Explore, 1),
        ],
        &[],
        DEFERRAL_WINDOW,
    );
    assert_eq!(
        history.deferrals(),
        vec![(String::from("ab"), 2), (String::from("th"), 2)]
    );
    assert_eq!(history.recently_practised(1), words(&["an", "zz"]));
    // A deferral inside an open window does not restart it.
    history.record(&[event("th", TargetRole::Deferred, 0)], &[], DEFERRAL_WINDOW);
    assert_eq!(
        history.deferrals(),
        vec![(String::from("ab"), 1), (String::from("th"), 1)]
    );
    assert!(history.recently_practised(1).is_empty());
    assert_eq!(history.recently_practised(2), words(&["an", "zz"]));
}
