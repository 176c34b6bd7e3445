//! Puts the pipeline together: what every word's first attempt got wrong,
//! every keystroke's interval, and the counts the session's metrics are
//! figured from.

use vstd::prelude::*;

use super::alignment::{align, attributed_edits, best_at};
use super::attempt::{
    lemma_keystroke_events, lemma_reconstructed_words_len, reconstruct, reconstruction_of, AttemptView,
    Keystroke,
};
use super::intervals::{classified_upto, classify, insert_sorted, intervals_view, ClassView, IntervalView};
use super::{edit_slot, median, median_of, Edit, HesitationThreshold, Interval, IntervalClass};
use crate::prompt::{pattern_at, Prompt, Slot};
use crate::session::{view_wf, SessionState, SessionView};
use crate::text::{string_of, sub_chars};

verus! {

/// One error in a word's first attempt, attributed to a pattern. Its share
/// of the blame is `occurrences / alignments`: one, unless the alignment
/// was ambiguous and the error is shared between equally good alignments.
#[derive(Debug, Clone, PartialEq, Eq)]
pub struct ErrorAttribution {
    pub edit: Edit,
    /// The pattern the error counts against: the text of the prompt ending
    /// at the edit's slot, up to a trigram; for a transposition, the bigram
    /// it spans.
    pub pattern: String,
    /// How many of the preferred alignments hold the error.
    pub occurrences: usize,
    /// How many preferred alignments there are.
    pub alignments: usize,
}

/// How one word was typed and where its first attempt went wrong.
#[derive(Debug, Clone, PartialEq, Eq)]
pub struct WordAnalysis {
    pub target: String,
    /// Every character typed for the word in order, including those later
    /// removed by backspace.
    pub attempt_history: Vec<char>,
    /// The characters typed before any backspace plus those typed at
    /// positions never attempted before, frozen at the word's first
    /// submission. Extras past the word's end are included.
    pub first_attempt: String,
    /// Whether the word was submitted: left with a space, or the word the
    /// session completed on. Only submitted words enter the accuracy
    /// figures.
    pub submitted: bool,
    /// The errors in the first attempt, each attributed to a pattern.
    pub errors: Vec<ErrorAttribution>,
    /// Characters wrong, missing, or extra in the text as first submitted,
    /// counted by position. Zero for an unsubmitted word.
    pub uncorrected_errors: usize,
    /// The position of the first uncorrected error; slots after it are
    /// `following_error`. `None` for an unsubmitted word.
    pub first_uncorrected_error: Option<usize>,
}

/// The whole-number figures of a session that its metrics are figured
/// from.
#[derive(Debug, Clone, Copy, PartialEq, Eq, Structural)]
pub struct SessionCounts {
    /// Target characters of the submitted words.
    pub target_characters: usize,
    /// Correction keystrokes: backspaces and replacements.
    pub corrections: usize,
    /// Characters wrong, missing, or extra in the submitted words' text as
    /// first submitted.
    pub uncorrected_errors: usize,
    /// Median time from an incorrect keystroke to the backspace that
    /// removed it; `None` when nothing incorrect was removed.
    pub error_latency_micros: Option<u64>,
    /// Intervals that carry motor evidence.
    pub clean_intervals: usize,
}

/// Everything the analysis derives from one session.
#[derive(Debug, Clone, PartialEq, Eq)]
pub struct SessionAnalysis {
    /// One entry per word of the session, in prompt order.
    pub words: Vec<WordAnalysis>,
    /// One entry per keystroke from the first printable character on, in
    /// event order.
    pub intervals: Vec<Interval>,
    pub counts: SessionCounts,
}

/// What an error attribution holds.
pub struct ErrorView {
    pub edit: Edit,
    pub pattern: Seq<char>,
    pub occurrences: usize,
    pub alignments: usize,
}

/// What a word analysis holds.
pub struct WordView {
    pub target: Seq<char>,
    pub attempt_history: Seq<char>,
    pub first_attempt: Seq<char>,
    pub submitted: bool,
    pub errors: Seq<ErrorView>,
    pub uncorrected_errors: usize,
    pub first_uncorrected_error: Option<usize>,
}

impl View for ErrorAttribution {
    type V = ErrorView;

    open spec fn view(&self) -> ErrorView {
        ErrorView {
            edit: self.edit,
            pattern: self.pattern@,
            occurrences: self.occurrences,
            alignments: self.alignments,
        }
    }
}

/// What some error attributions hold.
pub open spec fn errors_view(s: Seq<ErrorAttribution>) -> Seq<ErrorView> {
    Seq::new(s.len(), |i: int| s[i]@)
}

impl View for WordAnalysis {
    type V = WordView;

    open spec fn view(&self) -> WordView {
        WordView {
            target: self.target@,
            attempt_history: self.attempt_history@,
            first_attempt: self.first_attempt@,
            submitted: self.submitted,
            errors: errors_view(self.errors@),
            uncorrected_errors: self.uncorrected_errors,
            first_uncorrected_error: self.first_uncorrected_error,
        }
    }
}

impl WordAnalysis {
    /// Whether the typist got to the word at all: it was submitted, or
    /// something was typed for it.
    pub fn reached(&self) -> (r: bool)
        ensures
            r == (self@.submitted || self@.attempt_history.len() > 0),
    {
        self.submitted || self.attempt_history.len() > 0
    }
}

// --- Uncorrected errors -----------------------------------------------------------

/// Whether `typed` and `target` differ at a position: a wrong character, a
/// missing one, or an extra.
pub open spec fn differs_at(typed: Seq<char>, target: Seq<char>, p: int) -> bool {
    if p < typed.len() && p < target.len() {
        typed[p] != target[p]
    } else {
        p < typed.len() || p < target.len()
    }
}

/// The positions below `k` where `typed` differs from `target`, in order.
pub open spec fn positions_differing(typed: Seq<char>, target: Seq<char>, k: int) -> Seq<usize>
    decreases k,
{
    if k <= 0 {
        seq![]
    } else if differs_at(typed, target, k - 1) {
        positions_differing(typed, target, k - 1).push((k - 1) as usize)
    } else {
        positions_differing(typed, target, k - 1)
    }
}

/// The length of the longer of two texts.
pub open spec fn longer(a: Seq<char>, b: Seq<char>) -> int {
    if a.len() > b.len() {
        a.len() as int
    } else {
        b.len() as int
    }
}

/// The first position where two texts differ, if any.
pub open spec fn first_difference(typed: Seq<char>, target: Seq<char>) -> Option<usize> {
    let all = positions_differing(typed, target, longer(typed, target));
    if all.len() > 0 {
        Some(all[0])
    } else {
        None
    }
}

/// The positions where `typed` differs from `target`: wrong characters,
/// omitted ones, and extras.
pub fn differences(typed: &[char], target: &[char]) -> (r: Vec<usize>)
    ensures
        r@ == positions_differing(typed@, target@, longer(typed@, target@)),
{
    let n = if typed.len() > target.len() { typed.len() } else { target.len() };
    let mut out: Vec<usize> = Vec::new();
    let mut p: usize = 0;
    while p < n
        invariant
            p <= n,
            n == longer(typed@, target@),
            out@ == positions_differing(typed@, target@, p as int),
        decreases n - p,
    {
        let differs = if p < typed.len() && p < target.len() {
            typed[p] != target[p]
        } else {
            p < typed.len() || p < target.len()
        };
        if differs {
            out.push(p);
        }
        p += 1;
    }
    out
}

// --- Patterns ---------------------------------------------------------------------

/// The pattern an error counts against: for a transposition the bigram it
/// spans, otherwise the prompt text ending at its slot.
pub open spec fn pattern_of_edit(prompt: Seq<Seq<char>>, word: int, edit: Edit) -> Seq<char> {
    let target = prompt[word];
    match edit {
        Edit::Transposition { slot } => if 1 <= slot < target.len() {
            target.subrange(slot - 1, slot + 1)
        } else {
            pattern_at(prompt, Slot { word: word as usize, position: target.len() as usize })
        },
        _ => pattern_at(
            prompt,
            Slot {
                word: word as usize,
                position: if edit_slot(edit) <= target.len() {
                    edit_slot(edit)
                } else {
                    target.len() as usize
                },
            },
        ),
    }
}

/// The pattern an error in a word counts against.
pub fn attributed_pattern(prompt: &Prompt, word: usize, edit: Edit) -> (r: String)
    requires
        prompt.wf(),
        word < prompt@.len(),
    ensures
        r@ == pattern_of_edit(prompt@, word as int, edit),
{
    let target = prompt.word_chars(word);
    let len = target.len();
    match edit {
        Edit::Transposition { slot } => {
            if 1 <= slot && slot < len {
                let pair = sub_chars(target, slot - 1, slot + 1);
                return string_of(pair.as_slice());
            }
            prompt.pattern_ending_at(Slot { word, position: len })
        },
        _ => {
            let slot = edit.slot();
            let position = if slot <= len { slot } else { len };
            prompt.pattern_ending_at(Slot { word, position })
        },
    }
}

// --- Words ------------------------------------------------------------------------

/// The errors of a first attempt, each with its pattern.
pub open spec fn error_of(prompt: Seq<Seq<char>>, word: int, counted: (Edit, usize), alignments: usize) -> ErrorView {
    ErrorView {
        edit: counted.0,
        pattern: pattern_of_edit(prompt, word, counted.0),
        occurrences: counted.1,
        alignments,
    }
}

/// Whether a first attempt can be aligned within memory indices.
pub open spec fn alignable(first_attempt: Seq<char>, target: Seq<char>) -> bool {
    first_attempt.len() < usize::MAX && target.len() < usize::MAX
}

/// The errors attributed in a word: none unless the word was submitted.
pub open spec fn word_errors(prompt: Seq<Seq<char>>, word: int, a: AttemptView) -> Seq<ErrorView> {
    let target = prompt[word];
    if a.submitted_text is Some && alignable(a.first_attempt, target) {
        let edits = attributed_edits(a.first_attempt, target);
        let count = best_at(a.first_attempt, target, a.first_attempt.len(), target.len()).alignments.len();
        Seq::new(edits.len(), |k: int| error_of(prompt, word, edits[k], count as usize))
    } else {
        seq![]
    }
}

/// How one word was typed, from its reconstructed attempt.
pub open spec fn word_view(prompt: Seq<Seq<char>>, word: int, a: AttemptView) -> WordView {
    let target = prompt[word];
    let uncorrected = match a.submitted_text {
        Some(text) => positions_differing(text, target, longer(text, target)),
        None => seq![],
    };
    WordView {
        target,
        attempt_history: a.history,
        first_attempt: a.first_attempt,
        submitted: a.submitted_text is Some,
        errors: word_errors(prompt, word, a),
        uncorrected_errors: uncorrected.len() as usize,
        first_uncorrected_error: if uncorrected.len() > 0 {
            Some(uncorrected[0])
        } else {
            None
        },
    }
}

/// A word typed exactly right, first attempt and submitted text both its
/// target, is charged nothing: no error is attributed in it and nothing in
/// it is left uncorrected.
pub proof fn lemma_exact_word_is_charged_nothing(prompt: Seq<Seq<char>>, word: int, a: AttemptView)
    requires
        0 <= word < prompt.len(),
        a.first_attempt == prompt[word],
        a.submitted_text == Some(prompt[word]),
        prompt[word].len() < usize::MAX,
    ensures
        word_view(prompt, word, a).submitted,
        word_view(prompt, word, a).errors.len() == 0,
        word_view(prompt, word, a).uncorrected_errors == 0,
        word_view(prompt, word, a).first_uncorrected_error is None,
{
    let t = prompt[word];
    crate::analysis::alignment::lemma_exact_attempt_has_no_errors(t);
    lemma_no_positions_differ(t, longer(t, t));
}

/// A text differs from itself nowhere.
proof fn lemma_no_positions_differ(t: Seq<char>, k: int)
    ensures
        positions_differing(t, t, k).len() == 0,
    decreases k,
{
    if k > 0 {
        lemma_no_positions_differ(t, k - 1);
    }
}

/// A copy of some characters.
fn copy_of(chars: &[char]) -> (r: Vec<char>)
    ensures
        r@ == chars@,
{
    crate::text::copy_chars(chars)
}

/// How one word was typed.
fn analyze_word(prompt: &Prompt, word: usize, attempt: &super::attempt::WordAttempt) -> (r: WordAnalysis)
    requires
        prompt.wf(),
        word < prompt@.len(),
    ensures
        r@ == word_view(prompt@, word as int, attempt@),
{
    let target = prompt.word_chars(word);
    let ghost a = attempt@;
    let submitted = attempt.submitted();
    let mut errors: Vec<ErrorAttribution> = Vec::new();
    let ghost expected = word_errors(prompt@, word as int, a);
    if submitted && attempt.first_attempt.len() < usize::MAX && target.len() < usize::MAX {
        let (edits, count) = align(attempt.first_attempt.as_slice(), target);
        let mut k: usize = 0;
        while k < edits.len()
            invariant
                prompt.wf(),
                word < prompt@.len(),
                k <= edits@.len(),
                errors@.len() == k,
                forall|x: int|
                    0 <= x < k ==> (#[trigger] errors@[x])@ == error_of(prompt@, word as int, edits@[x], count),
            decreases edits@.len() - k,
        {
            let (edit, occurrences) = edits[k];
            let pattern = attributed_pattern(prompt, word, edit);
            errors.push(ErrorAttribution { edit, pattern, occurrences, alignments: count });
            k += 1;
        }
        proof {
            assert(errors_view(errors@) =~= expected);
        }
    } else {
        proof {
            assert(errors_view(errors@) =~= expected);
        }
    }
    let uncorrected = match &attempt.submitted_text {
        Some(text) => differences(text.as_slice(), target),
        None => Vec::new(),
    };
    let first = if uncorrected.len() > 0 { Some(uncorrected[0]) } else { None };
    let r = WordAnalysis {
        target: string_of(target),
        attempt_history: copy_of(attempt.history.as_slice()),
        first_attempt: string_of(attempt.first_attempt.as_slice()),
        submitted,
        errors,
        uncorrected_errors: uncorrected.len(),
        first_uncorrected_error: first,
    };
    r
}

// --- Counts -----------------------------------------------------------------------

/// `a + b`, or the largest `usize` where the sum would not fit.
pub open spec fn saturating_sum(a: int, b: int) -> int {
    if a + b > usize::MAX {
        usize::MAX as int
    } else {
        a + b
    }
}

/// Target characters of the submitted words among the first `n`.
pub open spec fn target_characters(words: Seq<WordView>, n: int) -> int
    decreases n,
{
    if n <= 0 {
        0
    } else {
        saturating_sum(
            target_characters(words, n - 1),
            if words[n - 1].submitted {
                words[n - 1].target.len() as int
            } else {
                0
            },
        )
    }
}

/// Uncorrected errors of the submitted words among the first `n`.
pub open spec fn uncorrected_total(words: Seq<WordView>, n: int) -> int
    decreases n,
{
    if n <= 0 {
        0
    } else {
        saturating_sum(
            uncorrected_total(words, n - 1),
            if words[n - 1].submitted {
                words[n - 1].uncorrected_errors as int
            } else {
                0
            },
        )
    }
}

/// Clean intervals with a latency among the first `n`.
pub open spec fn clean_count(intervals: Seq<IntervalView>, n: int) -> int
    decreases n,
{
    if n <= 0 {
        0
    } else {
        clean_count(intervals, n - 1) + if intervals[n - 1].class is Clean && intervals[n - 1].latency_micros is Some {
            1int
        } else {
            0int
        }
    }
}

/// How long each removed incorrect character had stood, among the first
/// `n` keystrokes, sorted.
pub open spec fn removal_latencies(keystrokes: Seq<Keystroke>, n: int) -> Seq<u64>
    decreases n,
{
    if n <= 0 {
        seq![]
    } else {
        match keystrokes[n - 1].removed_error_after_micros {
            Some(l) => insert_sorted(removal_latencies(keystrokes, n - 1), l),
            None => removal_latencies(keystrokes, n - 1),
        }
    }
}

/// The median time an incorrect character stood before its backspace.
pub open spec fn error_latency_micros(keystrokes: Seq<Keystroke>) -> Option<int> {
    median_of(removal_latencies(keystrokes, keystrokes.len() as int))
}

/// The analysis of every word of a session.
pub open spec fn words_of(v: SessionView) -> Seq<WordView> {
    Seq::new(v.word_count, |w: int| word_view(v.prompt, w, reconstruction_of(v).words[w]))
}

/// Where each word's first uncorrected error stands.
pub open spec fn first_errors(words: Seq<WordView>) -> Seq<Option<usize>> {
    Seq::new(words.len(), |w: int| words[w].first_uncorrected_error)
}

/// The intervals of a session under a threshold policy.
pub open spec fn intervals_of(v: SessionView, policy: HesitationThreshold) -> Seq<IntervalView> {
    let keystrokes = reconstruction_of(v).keystrokes;
    classified_upto(v, keystrokes, first_errors(words_of(v)), policy, keystrokes.len() as int).intervals
}

/// The counts of a session under a threshold policy.
pub open spec fn counts_of(v: SessionView, policy: HesitationThreshold) -> SessionCounts {
    let words = words_of(v);
    let keystrokes = reconstruction_of(v).keystrokes;
    let intervals = intervals_of(v, policy);
    SessionCounts {
        target_characters: target_characters(words, words.len() as int) as usize,
        corrections: super::attempt::corrections_in(keystrokes, keystrokes.len() as int) as usize,
        uncorrected_errors: uncorrected_total(words, words.len() as int) as usize,
        error_latency_micros: match error_latency_micros(keystrokes) {
            Some(m) => Some(m as u64),
            None => None,
        },
        clean_intervals: clean_count(intervals, intervals.len() as int) as usize,
    }
}

/// What some word analyses hold.
pub open spec fn words_view(s: Seq<WordAnalysis>) -> Seq<WordView> {
    Seq::new(s.len(), |i: int| s[i]@)
}

/// `a + b`, saturating.
fn add_saturating(a: usize, b: usize) -> (r: usize)
    ensures
        r == saturating_sum(a as int, b as int),
{
    if a > usize::MAX - b {
        usize::MAX
    } else {
        a + b
    }
}

/// The figures counted over the words.
fn word_counts(words: &Vec<WordAnalysis>) -> (r: (usize, usize))
    ensures
        r.0 == target_characters(words_view(words@), words@.len() as int),
        r.1 == uncorrected_total(words_view(words@), words@.len() as int),
{
    let ghost view = words_view(words@);
    let mut target: usize = 0;
    let mut uncorrected: usize = 0;
    let mut w: usize = 0;
    while w < words.len()
        invariant
            view == words_view(words@),
            w <= words@.len(),
            target == target_characters(view, w as int),
            uncorrected == uncorrected_total(view, w as int),
        decreases words@.len() - w,
    {
        let word = &words[w];
        assert(view[w as int] == word@);
        if word.submitted {
            target = add_saturating(target, word.target.unicode_len());
            uncorrected = add_saturating(uncorrected, word.uncorrected_errors);
        } else {
            target = add_saturating(target, 0);
            uncorrected = add_saturating(uncorrected, 0);
        }
        w += 1;
    }
    (target, uncorrected)
}

/// The clean intervals with a latency.
fn count_clean(intervals: &Vec<Interval>) -> (r: usize)
    ensures
        r == clean_count(intervals_view(intervals@), intervals@.len() as int),
{
    let ghost view = intervals_view(intervals@);
    let mut count: usize = 0;
    let mut k: usize = 0;
    while k < intervals.len()
        invariant
            view == intervals_view(intervals@),
            k <= intervals@.len(),
            count <= k,
            count == clean_count(view, k as int),
        decreases intervals@.len() - k,
    {
        let interval = &intervals[k];
        assert(view[k as int] == interval@);
        let clean = match interval.class {
            IntervalClass::Clean => interval.latency_micros.is_some(),
            _ => false,
        };
        if clean {
            count += 1;
        }
        k += 1;
    }
    count
}

/// The median time an incorrect character stood before its backspace.
fn error_latency(keystrokes: &Vec<Keystroke>) -> (r: Option<u64>)
    ensures
        match r {
            Some(m) => error_latency_micros(keystrokes@) == Some(m as int),
            None => error_latency_micros(keystrokes@) is None,
        },
{
    let mut sorted = super::intervals::SortedLatencies::new();
    let mut k: usize = 0;
    while k < keystrokes.len()
        invariant
            k <= keystrokes@.len(),
            sorted@ == removal_latencies(keystrokes@, k as int),
        decreases keystrokes@.len() - k,
    {
        match keystrokes[k].removed_error_after_micros {
            Some(l) => sorted.push(l),
            None => {},
        }
        k += 1;
    }
    sorted.median()
}

/// Analyses a finished session with the given hesitation threshold.
pub fn analyze_with(state: &SessionState, policy: HesitationThreshold) -> (r: SessionAnalysis)
    requires
        state.wf(),
    ensures
        words_view(r.words@) == words_of(state@),
        intervals_view(r.intervals@) == intervals_of(state@, policy),
        r.counts == counts_of(state@, policy),
{
    proof {
        state.lemma_wf();
    }
    let ghost v = state@;
    let reconstruction = reconstruct(state);
    let prompt = state.prompt();
    let word_count = state.word_count();
    let ghost recon = reconstruction@;
    assert(recon.words.len() == v.word_count) by {
        lemma_reconstructed_words_len(v, v.events.len() as int);
    }
    let mut words: Vec<WordAnalysis> = Vec::new();
    let mut w: usize = 0;
    while w < word_count
        invariant
            v == state@,
            view_wf(v),
            prompt.wf(),
            prompt@ == v.prompt,
            word_count == v.word_count,
            recon == reconstruction@,
            recon == reconstruction_of(v),
            recon.words.len() == v.word_count,
            reconstruction.words@.len() == v.word_count,
            w <= word_count,
            words@.len() == w,
            forall|x: int| 0 <= x < w ==> (#[trigger] words@[x])@ == word_view(v.prompt, x, recon.words[x]),
        decreases word_count - w,
    {
        assert(reconstruction.words@[w as int]@ == recon.words[w as int]);
        words.push(analyze_word(prompt, w, &reconstruction.words[w]));
        w += 1;
    }
    assert(words_view(words@) =~= words_of(v));
    let mut first: Vec<Option<usize>> = Vec::new();
    let mut x: usize = 0;
    while x < words.len()
        invariant
            x <= words@.len(),
            first@ == first_errors(words_view(words@)).take(x as int),
        decreases words@.len() - x,
    {
        first.push(words[x].first_uncorrected_error);
        proof {
            assert(first_errors(words_view(words@)).take(x + 1) =~= first_errors(words_view(words@)).take(
                x as int,
            ).push(words@[x as int].first_uncorrected_error));
        }
        x += 1;
    }
    assert(first@ =~= first_errors(words_of(v)));
    proof {
        lemma_keystroke_events(v, v.events.len() as int);
    }
    let intervals = classify(state, reconstruction.keystrokes.as_slice(), first.as_slice(), policy);
    let (target_characters, uncorrected_errors) = word_counts(&words);
    let counts = SessionCounts {
        target_characters,
        corrections: reconstruction.corrections(),
        uncorrected_errors,
        error_latency_micros: error_latency(&reconstruction.keystrokes),
        clean_intervals: count_clean(&intervals),
    };
    SessionAnalysis { words, intervals, counts }
}

/// Analyses a finished session with the hesitation threshold taken from
/// the running median of its own clean latencies: the classification for
/// a first session and for a replay without the baseline of the time.
pub fn analyze(state: &SessionState) -> (r: SessionAnalysis)
    requires
        state.wf(),
    ensures
        words_view(r.words@) == words_of(state@),
        intervals_view(r.intervals@) == intervals_of(state@, HesitationThreshold::RunningMedian),
        r.counts == counts_of(state@, HesitationThreshold::RunningMedian),
{
    analyze_with(state, HesitationThreshold::RunningMedian)
}

} // verus!
