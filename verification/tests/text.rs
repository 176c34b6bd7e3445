use typ::corpus::{parse_count, passes, split_lines, CountProblem};
use typ::prompt::Prompt;
use typ::session::{EndCondition, EventKind, Input, Key, SessionState};
use typ::text::{
    append, append_debug, append_str, chars_equal, chars_less, chars_of, copy_chars,
    decimal_chars, ends_with, find_char_from, str_equal, string_of, sub_chars, text_of,
    trim_chars,
};

fn chars(s: &str) -> Vec<char> {
    s.chars().collect()
}

fn text(c: &[char]) -> String {
    c.iter().collect()
}

#[test]
fn characters_and_strings_convert_both_ways() {
    assert_eq!(chars_of("héllo"), chars("héllo"));
    assert_eq!(string_of(&chars("wörd")), "wörd");
    assert_eq!(text_of("abc"), "abc");
    assert_eq!(copy_chars(&chars("xyz")), chars("xyz"));
    assert_eq!(sub_chars(&chars("typing"), 1, 4), chars("ypi"));
    assert_eq!(sub_chars(&chars("typing"), 3, 3), chars(""));
}

#[test]
fn texts_compare_by_their_characters() {
    assert!(chars_equal(&chars("cat"), &chars("cat")));
    assert!(!chars_equal(&chars("cat"), &chars("cap")));
    assert!(!chars_equal(&chars("cat"), &chars("cats")));
    assert!(str_equal("", ""));
    assert!(!str_equal("a", "A"));
    assert!(ends_with(&chars("walking"), &chars("ing")));
    assert!(ends_with(&chars("ing"), &chars("")));
    assert!(!ends_with(&chars("in"), &chars("ing")));
}

#[test]
fn text_order_is_the_order_of_str() {
    let samples = ["", "a", "ab", "b", " a", "Z", "é", "ba"];
    for a in samples {
        for b in samples {
            assert_eq!(chars_less(&chars(a), &chars(b)), a < b, "{a:?} < {b:?}");
        }
    }
}

#[test]
fn appending_extends_what_is_there() {
    let mut out = chars("ab");
    append(&mut out, &chars("cd"));
    append_str(&mut out, "ef");
    assert_eq!(text(&out), "abcdef");
    let mut quoted = chars("x=");
    append_debug(&mut quoted, &chars("a\"b\\c\n"));
    assert_eq!(text(&quoted), "x=\"a\\\"b\\\\c\\n\"");
}

#[test]
fn numbers_are_written_in_decimal() {
    assert_eq!(text(&decimal_chars(0)), "0");
    assert_eq!(text(&decimal_chars(7)), "7");
    assert_eq!(text(&decimal_chars(1_204)), "1204");
    assert_eq!(text(&decimal_chars(usize::MAX)), usize::MAX.to_string());
}

#[test]
fn trimming_drops_whitespace_at_both_ends_only() {
    assert_eq!(text(&trim_chars(&chars("  a b \t\n"))), "a b");
    assert_eq!(text(&trim_chars(&chars("\u{3000}x\u{a0}"))), "x");
    assert_eq!(text(&trim_chars(&chars("   "))), "");
    assert_eq!(text(&trim_chars(&chars("nothing"))), "nothing");
}

#[test]
fn a_character_is_found_from_a_position_or_the_end_is_returned() {
    let s = chars("a,b,c");
    assert_eq!(find_char_from(&s, ',', 0), 1);
    assert_eq!(find_char_from(&s, ',', 2), 3);
    assert_eq!(find_char_from(&s, ',', 4), 5);
    assert_eq!(find_char_from(&s, 'a', 5), 5);
}

#[test]
fn lines_split_as_str_lines_does() {
    let text_in = "one\r\ntwo\n\nthree\n";
    let lines: Vec<String> = split_lines(&chars(text_in)).iter().map(|l| text(l)).collect();
    let expected: Vec<String> = text_in.lines().map(String::from).collect();
    assert_eq!(lines, expected);
    assert!(split_lines(&chars("")).is_empty());
}

#[test]
fn counts_read_as_u64_from_str_reads_them() {
    assert_eq!(parse_count(&chars("42")), Ok(42));
    assert_eq!(parse_count(&chars("+7")), Ok(7));
    assert_eq!(parse_count(&chars("18446744073709551615")), Ok(u64::MAX));
    assert_eq!(parse_count(&chars("18446744073709551616")), Err(CountProblem::TooLarge));
    assert_eq!(parse_count(&chars("")), Err(CountProblem::Empty));
    assert_eq!(parse_count(&chars("+")), Err(CountProblem::InvalidDigit));
    assert_eq!(parse_count(&chars("-1")), Err(CountProblem::InvalidDigit));
    assert_eq!(parse_count(&chars("1.0")), Err(CountProblem::InvalidDigit));
}

#[test]
fn the_word_filter_takes_lowercase_letters_and_two_single_letters() {
    assert!(passes(&chars("the")));
    assert!(passes(&chars("a")));
    assert!(passes(&chars("i")));
    assert!(!passes(&chars("b")));
    assert!(!passes(&chars("")));
    assert!(!passes(&chars("The")));
    assert!(!passes(&chars("don't")));
    assert!(!passes(&chars("café")));
}

#[test]
fn a_prompt_gives_each_words_characters_and_length() {
    let p = Prompt::new(&["naïve", "cat"]);
    assert_eq!(p.word_chars(0), chars("naïve").as_slice());
    assert_eq!(p.word_len(0), 5);
    assert_eq!(p.word_len(1), 3);
}

#[test]
fn keystrokes_are_the_editing_keys() {
    assert!(EventKind::Char.is_keystroke());
    assert!(EventKind::Space.is_keystroke());
    assert!(EventKind::Backspace.is_keystroke());
    assert!(!EventKind::Resize.is_keystroke());
    assert!(!EventKind::Interrupt.is_keystroke());
}

#[test]
fn a_word_left_wrong_has_an_uncorrected_error() {
    let mut state = SessionState::new(Prompt::new(&["cat", "dog"]), EndCondition::AfterWords(2));
    for (i, c) in "cxt d".chars().enumerate() {
        state.apply_event(Input::new(i as u64 * 100_000, Key::Char(c)));
    }
    assert!(state.has_uncorrected_error(0));
    assert!(state.has_uncorrected_error(1));
    state.apply_event(Input::new(900_000, Key::Char('o')));
    state.apply_event(Input::new(1_000_000, Key::Char('g')));
    assert!(!state.has_uncorrected_error(1));
}
