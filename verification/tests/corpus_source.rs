use typ::corpus::{
    containing_words, find_by_text, ranked_records, ranks_by_text, Record, WordId, MAX_WORDS,
};

fn csv(rows: &[(&str, u64)]) -> String {
    let mut csv = String::from("ngram,freq,cumshare\n");
    for (word, count) in rows {
        csv.push_str(&format!("{word},{count},0.0\n"));
    }
    csv
}

fn words(records: &[Record]) -> Vec<&str> {
    records.iter().map(|r| r.word.as_str()).collect()
}

#[test]
fn the_source_filter_keeps_lowercase_ascii_words_and_only_a_and_i_as_single_letters() {
    let records = ranked_records(&csv(&[
        ("the", 100),
        ("I", 90),
        ("a", 80),
        ("God", 70),
        ("i", 60),
        ("b", 50),
        ("don't", 40),
        ("café", 30),
        ("of", 20),
        ("x2", 10),
    ]))
    .unwrap();
    assert_eq!(words(&records), ["the", "a", "i", "of"]);
    assert_eq!(records[0].count, 100);
}

#[test]
fn kept_words_are_ranked_by_count_with_ties_in_list_order() {
    let records = ranked_records(&csv(&[("to", 3), ("of", 7), ("in", 3), ("on", 9)])).unwrap();
    assert_eq!(words(&records), ["on", "of", "to", "in"]);
}

#[test]
fn at_most_the_word_limit_is_kept_and_the_most_frequent_first() {
    let total = MAX_WORDS + 50;
    let rows: Vec<(String, u64)> = (0..total)
        .map(|i| {
            let text: String = (0..4)
                .rev()
                .map(|k| (b'a' + ((i / 26usize.pow(k)) % 26) as u8) as char)
                .collect();
            (text, (i + 1) as u64)
        })
        .collect();
    let rows: Vec<(&str, u64)> = rows.iter().map(|(t, c)| (t.as_str(), *c)).collect();
    let records = ranked_records(&csv(&rows)).unwrap();
    assert_eq!(records.len(), MAX_WORDS);
    assert_eq!(records[0].count, total as u64);
    assert_eq!(records[MAX_WORDS - 1].count, 51);
}

#[test]
fn malformed_source_lists_are_refused_with_what_is_wrong() {
    assert_eq!(
        ranked_records("word,count\nthe,1,0.1\n").unwrap_err().0,
        "unexpected header Some(\"word,count\")"
    );
    assert_eq!(
        ranked_records("ngram,freq,cumshare\nthe,many,0.1\n").unwrap_err().0,
        "line 2: bad count \"many\": invalid digit found in string"
    );
    assert_eq!(
        ranked_records("ngram,freq,cumshare\nthe,1\n").unwrap_err().0,
        "line 2: expected three fields"
    );
    assert_eq!(
        ranked_records("ngram,freq,cumshare\nI,1,0.1\n").unwrap_err().0,
        "no words survive the filter"
    );
    assert_eq!(ranked_records("").unwrap_err().0, "unexpected header None");
}

fn owned(words: &[&str]) -> Vec<String> {
    words.iter().map(|w| w.to_string()).collect()
}

/// A pattern's place in its level's table: its symbols read in base 27,
/// the space 0 and `a`-`z` 1-26.
fn code(pattern: &str) -> usize {
    pattern.bytes().fold(0, |acc, b| acc * 27 + if b == b' ' { 0 } else { (b - 96) as usize })
}

fn ranks(ids: &[WordId]) -> Vec<usize> {
    ids.iter().map(|id| id.index()).collect()
}

#[test]
fn the_inverted_index_lists_each_containing_word_once_and_nothing_for_cross_word_trigrams() {
    let words = owned(&["tot", "a", "at"]);
    let characters = containing_words(&words, 1);
    let bigrams = containing_words(&words, 2);
    let trigrams = containing_words(&words, 3);
    assert_eq!(characters.len(), 27);
    assert_eq!(bigrams.len(), 729);
    assert_eq!(trigrams.len(), 19_683);
    assert_eq!(ranks(&characters[code("t")]), [0, 2]);
    assert_eq!(ranks(&characters[code(" ")]), [0, 1, 2]);
    assert_eq!(ranks(&bigrams[code(" t")]), [0]);
    assert_eq!(ranks(&bigrams[code("t ")]), [0, 2]);
    assert_eq!(ranks(&trigrams[code(" a ")]), [1]);
    assert_eq!(ranks(&trigrams[code("t a")]), Vec::<usize>::new());
    assert_eq!(ranks(&characters[code("z")]), Vec::<usize>::new());
}

#[test]
fn every_window_of_every_padded_word_is_indexed_and_nothing_else() {
    let words = owned(&["the", "this", "that", "at", "a", "tot"]);
    for n in 1..=3usize {
        let index = containing_words(&words, n);
        let mut expected: Vec<Vec<usize>> = vec![Vec::new(); index.len()];
        for (rank, word) in words.iter().enumerate() {
            let padded = format!(" {word} ");
            let start = if n == 1 { 1 } else { 0 };
            for i in start..=padded.len() - n {
                let entry = &mut expected[code(&padded[i..i + n])];
                if entry.last() != Some(&rank) {
                    entry.push(rank);
                }
            }
        }
        let actual: Vec<Vec<usize>> = index.iter().map(|ids| ranks(ids)).collect();
        assert_eq!(actual, expected, "n = {n}");
    }
}

#[test]
fn a_word_is_found_by_its_text_through_the_text_order() {
    let words = owned(&["the", "of", "cat", "a", "zebra"]);
    let by_text = ranks_by_text(&words);
    assert_eq!(ranks(&by_text), [3, 2, 1, 0, 4]);
    for (rank, word) in words.iter().enumerate() {
        assert_eq!(find_by_text(&words, &by_text, word).map(|id| id.index()), Some(rank));
    }
    assert_eq!(find_by_text(&words, &by_text, "dog"), None);
    assert_eq!(find_by_text(&words, &by_text, ""), None);
    assert_eq!(find_by_text(&words, &by_text, "The"), None);
    assert_eq!(find_by_text(&words, &by_text, "zebras"), None);
}

#[test]
fn equal_texts_keep_their_rank_order() {
    let words = owned(&["b", "a", "b", "a"]);
    assert_eq!(ranks(&ranks_by_text(&words)), [1, 3, 0, 2]);
    assert!(ranks_by_text(&[]).is_empty());
}
