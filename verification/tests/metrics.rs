use typ::metrics::{
    elapsed_micros, final_accuracy_counts, final_characters, probe_windows, ProbeFlags,
};
use typ::prompt::Prompt;
use typ::session::{EndCondition, Input, Key, Outcome, SessionState};

/// One keystroke every 100 ms.
const STEP: u64 = 100_000;

/// Types `script` (`⌫` is backspace) starting at `start` microseconds.
fn run_from(prompt: &str, script: &str, start: u64) -> SessionState {
    let words: Vec<&str> = prompt.split(' ').collect();
    let mut state = SessionState::new(Prompt::new(&words), EndCondition::AfterWords(usize::MAX));
    for (i, symbol) in script.chars().enumerate() {
        let key = match symbol {
            '⌫' => Key::Backspace,
            c => Key::Char(c),
        };
        state.apply_event(Input::new(start + i as u64 * STEP, key));
    }
    state
}

/// Final accuracy from its counts: correct characters over target
/// characters plus extras, zero when there are none.
fn final_accuracy(state: &SessionState) -> f64 {
    let (correct, denominator) = final_accuracy_counts(state);
    if denominator == 0 {
        0.0
    } else {
        correct as f64 / denominator as f64
    }
}

fn run(prompt: &str, script: &str) -> SessionState {
    run_from(prompt, script, 0)
}

#[test]
fn final_characters_count_the_submitted_text_with_extras_and_separating_spaces() {
    let state = run("cat dog", "catx dg ");
    assert_eq!(state.outcome(), Some(Outcome::Completed));
    // "catx" + " " + "dg"; the submitting space is not part of the text.
    assert_eq!(final_characters(&state), 7);
}

#[test]
fn final_characters_of_an_untouched_session_are_zero() {
    assert_eq!(final_characters(&run("cat dog", "")), 0);
}

#[test]
fn final_characters_of_an_interrupted_session_count_a_space_per_submitted_word() {
    let mut state = run("cat dog fox", "cat dog fo");
    state.apply_event(Input::new(10 * STEP, Key::Interrupt));
    assert_eq!(state.outcome(), Some(Outcome::Interrupted));
    // "cat" + " " + "dog" + " " + "fo"
    assert_eq!(final_characters(&state), 10);
}

#[test]
fn elapsed_runs_from_the_first_printable_keystroke_to_the_final_event() {
    // Reading time before the first keystroke is not counted: the script
    // starts at t = 5 s and the final event lands 6 steps later.
    let state = run_from("cat dog", "cat dog", 5_000_000);
    assert_eq!(elapsed_micros(&state), Some(6 * STEP));
}

#[test]
fn elapsed_is_none_before_the_first_printable_keystroke() {
    assert_eq!(elapsed_micros(&run("cat dog", "")), None);
    assert_eq!(elapsed_micros(&run("cat dog", "⌫⌫")), None);
}

#[test]
fn final_accuracy_is_correct_slots_over_target_characters_plus_extras() {
    // "cat" typed "cat": 3 of 3; "fox" typed "foxxx": 3 of 3 plus 2 extras;
    // "dog" typed "dg": d correct, g wrong at o's slot, g never typed → 1 of 3.
    let state = run("cat fox dog", "cat foxxx dg ");
    assert_eq!(state.outcome(), Some(Outcome::Completed));
    let acc = final_accuracy(&state);
    assert!((acc - 7.0 / 11.0).abs() < 1e-9, "{acc}");
}

#[test]
fn final_accuracy_reflects_corrections_not_first_attempts() {
    let state = run("cat", "cxt⌫⌫at");
    assert_eq!(final_accuracy(&state), 1.0);
}

#[test]
fn final_accuracy_of_an_untouched_session_is_zero() {
    assert_eq!(final_accuracy(&run("cat dog", "")), 0.0);
}

fn flags(spec: &str) -> Vec<ProbeFlags> {
    spec.chars()
        .map(|c| ProbeFlags {
            measured: c != '-',
            contaminated: c == 'c',
        })
        .collect()
}

#[test]
fn probe_windows_fill_the_current_window_then_the_previous_one() {
    // `p` a measured clean probe, `c` a contaminated one, `-` no measured probe.
    let w = probe_windows(&flags("pc-pppcpcpp"), 3);
    assert_eq!(w.current, vec![0, 3, 4]);
    assert_eq!(w.contaminated, vec![1]);
    assert_eq!(w.previous, vec![5, 7, 9]);
    let short = probe_windows(&flags("pcp"), 3);
    assert_eq!(short.current, vec![0, 2]);
    assert_eq!(short.contaminated, vec![1]);
    assert!(short.previous.is_empty());
    let none = probe_windows(&flags("ppp"), 0);
    assert!(none.current.is_empty() && none.previous.is_empty());
}
