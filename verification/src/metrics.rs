//! Session performance figures available the moment a session ends: the
//! submitted text and the elapsed time of a session as typed, corrections
//! included. Rates and shares are figured from these counts by the caller.

use vstd::prelude::*;

use crate::analysis::{median, median_of, SessionAnalysis};
use crate::analysis::intervals::{insert_sorted, SortedLatencies};
use crate::session::{view_wf, EventKind, Outcome, SessionState, SessionView};

verus! {

/// Which way a sustained change in probe performance went.
#[derive(Debug, Clone, Copy, PartialEq, Eq, Structural)]
pub enum Sustained {
    Improvement,
    Decline,
}

/// `a + b`, or the largest `usize` where the sum would not fit.
pub open spec fn capped_sum(a: int, b: int) -> int {
    if a + b > usize::MAX {
        usize::MAX as int
    } else {
        a + b
    }
}

/// The characters typed for the first `n` words, extras included.
pub open spec fn typed_characters(v: SessionView, n: int) -> int
    decreases n,
{
    if n <= 0 {
        0
    } else {
        capped_sum(typed_characters(v, n - 1), v.typed[n - 1].len() as int)
    }
}

/// The spaces that separate the submitted text: one per word the caret
/// moved past, and none after a completed session's final word.
pub open spec fn separating_spaces(v: SessionView) -> int {
    if v.outcome == Some(Outcome::Completed) {
        v.word_count - 1
    } else {
        v.current_word as int
    }
}

/// Characters in the submitted text.
pub open spec fn final_character_count(v: SessionView) -> int {
    capped_sum(typed_characters(v, v.word_count as int), separating_spaces(v))
}

fn add_capped(a: usize, b: usize) -> (r: usize)
    ensures
        r == capped_sum(a as int, b as int),
{
    if a > usize::MAX - b {
        usize::MAX
    } else {
        a + b
    }
}

/// Characters in the submitted text: everything typed for each word,
/// extras included, plus the space that submitted each word. A completed
/// session's final word carries no space whether it ended on its last
/// character or on a space. Saturates at the largest `usize`.
pub fn final_characters(state: &SessionState) -> (r: usize)
    requires
        state.wf(),
    ensures
        r == final_character_count(state@),
{
    proof {
        state.lemma_wf();
    }
    let ghost v = state@;
    let word_count = state.word_count();
    let mut typed: usize = 0;
    let mut w: usize = 0;
    while w < word_count
        invariant
            state.wf(),
            v == state@,
            view_wf(v),
            word_count == v.word_count,
            w <= word_count,
            typed == typed_characters(v, w as int),
        decreases word_count - w,
    {
        typed = add_capped(typed, state.typed(w).len());
        w += 1;
    }
    let spaces = match state.outcome() {
        Some(Outcome::Completed) => word_count - 1,
        _ => state.current_word(),
    };
    add_capped(typed, spaces)
}

/// Microseconds from the first printable keystroke to the final event.
pub open spec fn elapsed_of(v: SessionView) -> Option<u64> {
    match v.started_at {
        Some(started) => if v.events.len() > 0 {
            let last = v.events.last().at_micros;
            Some(if last >= started { (last - started) as u64 } else { 0 })
        } else {
            None
        },
        None => None,
    }
}

/// Microseconds from the first printable keystroke to the final event.
/// `None` before the first printable keystroke.
pub fn elapsed_micros(state: &SessionState) -> (r: Option<u64>)
    ensures
        r == elapsed_of(state@),
{
    let started = match state.started_at_micros() {
        Some(s) => s,
        None => {
            return None;
        },
    };
    let events = state.events();
    if events.len() == 0 {
        return None;
    }
    let last = events[events.len() - 1].at_micros;
    Some(if last >= started { last - started } else { 0 })
}

/// Elapsed time counts from the first printable keystroke, whatever was
/// recorded before it: unknown before that keystroke or before any event;
/// otherwise the final event's time less the keystroke's, and zero if the
/// clock went back.
pub proof fn lemma_elapsed_counts_from_start(v: SessionView)
    ensures
        v.started_at is None ==> elapsed_of(v) is None,
        v.events.len() == 0 ==> elapsed_of(v) is None,
        v.started_at is Some && v.events.len() > 0 && v.events.last().at_micros >= v.started_at->0 ==> elapsed_of(v)
            == Some((v.events.last().at_micros - v.started_at->0) as u64),
        v.started_at is Some && v.events.len() > 0 && v.events.last().at_micros < v.started_at->0 ==> elapsed_of(v)
            == Some(0u64),
{
}

/// Two sessions that started at the same keystroke time and whose final
/// events came at the same time have the same elapsed time, whatever else
/// either recorded, before the start or after it.
pub proof fn lemma_elapsed_ignores_other_events(v: SessionView, w: SessionView)
    requires
        v.started_at == w.started_at,
        v.events.len() > 0,
        w.events.len() > 0,
        v.events.last().at_micros == w.events.last().at_micros,
    ensures
        elapsed_of(v) == elapsed_of(w),
{
}

/// The positions below `n` where a typed word matches its target.
pub open spec fn matching_upto(target: Seq<char>, typed: Seq<char>, n: int) -> int
    decreases n,
{
    if n <= 0 {
        0
    } else {
        matching_upto(target, typed, n - 1) + if n - 1 < target.len() && n - 1 < typed.len() && target[n - 1]
            == typed[n - 1] {
            1int
        } else {
            0int
        }
    }
}

/// A word's target characters plus its extras.
pub open spec fn word_denominator(target: Seq<char>, typed: Seq<char>) -> int {
    if typed.len() > target.len() {
        typed.len() as int
    } else {
        target.len() as int
    }
}

/// Correct characters and target-plus-extra characters over the first `n`
/// words.
pub open spec fn accuracy_counts(v: SessionView, n: int) -> (int, int)
    decreases n,
{
    if n <= 0 {
        (0, 0)
    } else {
        let (c, d) = accuracy_counts(v, n - 1);
        let target = v.prompt[n - 1];
        let typed = v.typed[n - 1];
        (
            capped_sum(c, matching_upto(target, typed, target.len() as int)),
            capped_sum(d, word_denominator(target, typed)),
        )
    }
}

/// The characters a word matches its target at.
fn matching(target: &[char], typed: &[char]) -> (r: usize)
    ensures
        r == matching_upto(target@, typed@, target@.len() as int),
{
    let mut count: usize = 0;
    let mut i: usize = 0;
    while i < target.len()
        invariant
            i <= target@.len(),
            count <= i,
            count == matching_upto(target@, typed@, i as int),
        decreases target@.len() - i,
    {
        if i < typed.len() && target[i] == typed[i] {
            count += 1;
        }
        i += 1;
    }
    count
}

/// What final accuracy is figured from: target characters typed correctly,
/// and target characters plus extra characters; the accuracy is the first
/// over the second, or zero when the second is. Untyped target characters
/// and extras both count against it. Each saturates at the largest `usize`.
pub fn final_accuracy_counts(state: &SessionState) -> (r: (usize, usize))
    requires
        state.wf(),
    ensures
        r.0 == accuracy_counts(state@, state@.word_count as int).0,
        r.1 == accuracy_counts(state@, state@.word_count as int).1,
{
    proof {
        state.lemma_wf();
    }
    let ghost v = state@;
    let prompt = state.prompt();
    let word_count = state.word_count();
    let mut correct: usize = 0;
    let mut denominator: usize = 0;
    let mut w: usize = 0;
    while w < word_count
        invariant
            state.wf(),
            v == state@,
            view_wf(v),
            prompt.wf(),
            prompt@ == v.prompt,
            word_count == v.word_count,
            w <= word_count,
            correct == accuracy_counts(v, w as int).0,
            denominator == accuracy_counts(v, w as int).1,
        decreases word_count - w,
    {
        let target = prompt.word_chars(w);
        let typed = state.typed(w);
        correct = add_capped(correct, matching(target, typed));
        let width = if typed.len() > target.len() { typed.len() } else { target.len() };
        denominator = add_capped(denominator, width);
        w += 1;
    }
    (correct, denominator)
}

/// Whether a word was left with a space: every submitted word but the
/// last, and the last when the session ended on a space rather than on its
/// final character.
pub open spec fn space_typed_in(words: Seq<bool>, last_kind: Option<EventKind>, index: int) -> bool {
    words[index] && (index + 1 < words.len() || last_kind == Some(EventKind::Space))
}

/// Which way the last interval of an analysed session went, if it has one.
pub open spec fn last_interval_kind(analysis: SessionAnalysis) -> Option<EventKind> {
    if analysis.intervals@.len() > 0 {
        Some(analysis.intervals@.last().kind)
    } else {
        None
    }
}

/// Whether a word was left with a space, as `space_typed` answers it.
pub open spec fn left_with_space(analysis: SessionAnalysis, index: int) -> bool {
    space_typed_in(
        Seq::new(analysis.words@.len(), |w: int| analysis.words@[w].submitted),
        last_interval_kind(analysis),
        index,
    )
}

/// A word is left with a space exactly when it was submitted and either a
/// later word follows it or the session's last interval is a space: a
/// word never submitted never is, every submitted word but the last is,
/// and the last submitted word is when the session ended on a space.
pub proof fn lemma_left_with_space(analysis: SessionAnalysis, index: int)
    requires
        0 <= index < analysis.words@.len(),
    ensures
        !analysis.words@[index].submitted ==> !left_with_space(analysis, index),
        analysis.words@[index].submitted && index + 1 < analysis.words@.len() ==> left_with_space(
            analysis,
            index,
        ),
        analysis.words@[index].submitted && index + 1 == analysis.words@.len() && analysis.intervals@.len() > 0
            && analysis.intervals@.last().kind == EventKind::Space ==> left_with_space(analysis, index),
        index + 1 == analysis.words@.len() && last_interval_kind(analysis) != Some(EventKind::Space)
            ==> !left_with_space(analysis, index),
{
}

/// Whether a word of an analysed session was left with a space.
pub fn space_typed(analysis: &SessionAnalysis, index: usize) -> (r: bool)
    requires
        index < analysis.words@.len(),
    ensures
        r == space_typed_in(
            Seq::new(analysis.words@.len(), |w: int| analysis.words@[w].submitted),
            if analysis.intervals@.len() > 0 {
                Some(analysis.intervals@.last().kind)
            } else {
                None
            },
            index as int,
        ),
        r == left_with_space(*analysis, index as int),
{
    let n = analysis.intervals.len();
    let ends_on_space = n > 0 && analysis.intervals[n - 1].kind == EventKind::Space;
    analysis.words[index].submitted && (index < analysis.words.len() - 1 || ends_on_space)
}

/// Some latencies in sorted order.
pub open spec fn sorted_latencies(s: Seq<Option<u64>>, n: int) -> Seq<u64>
    decreases n,
{
    if n <= 0 {
        seq![]
    } else {
        match s[n - 1] {
            Some(l) => insert_sorted(sorted_latencies(s, n - 1), l),
            None => sorted_latencies(s, n - 1),
        }
    }
}

/// The median of the latencies that are present.
pub fn median_present(latencies: &[Option<u64>]) -> (r: Option<u64>)
    ensures
        match r {
            Some(m) => median_of(sorted_latencies(latencies@, latencies@.len() as int)) == Some(m as int),
            None => median_of(sorted_latencies(latencies@, latencies@.len() as int)) is None,
        },
{
    let mut sorted = SortedLatencies::new();
    let mut k: usize = 0;
    while k < latencies.len()
        invariant
            k <= latencies@.len(),
            sorted@ == sorted_latencies(latencies@, k as int),
        decreases latencies@.len() - k,
    {
        match latencies[k] {
            Some(l) => sorted.push(l),
            None => {},
        }
        k += 1;
    }
    sorted.median()
}


// --- Probe windows ----------------------------------------------------------------

/// A probe word as the trend sees it: whether it is measured (a submitted
/// probe that took time) and whether it overlapped recent targeted practice.
#[derive(Debug, Clone, Copy, PartialEq, Eq, Structural)]
pub struct ProbeFlags {
    pub measured: bool,
    pub contaminated: bool,
}

/// The words of a probe trend, by their index among the words, most recent
/// first: the current window of uncontaminated probes, the contaminated
/// probes met while it filled, and the window of uncontaminated probes
/// before it.
#[derive(Debug, Clone, PartialEq, Eq)]
pub struct ProbeWindows {
    pub current: Vec<usize>,
    pub contaminated: Vec<usize>,
    pub previous: Vec<usize>,
}

/// What the windows hold.
pub struct ProbeWindowsView {
    pub current: Seq<usize>,
    pub contaminated: Seq<usize>,
    pub previous: Seq<usize>,
}

impl View for ProbeWindows {
    type V = ProbeWindowsView;

    open spec fn view(&self) -> ProbeWindowsView {
        ProbeWindowsView { current: self.current@, contaminated: self.contaminated@, previous: self.previous@ }
    }
}

/// The windows after the first `n` words: a measured probe goes to the
/// current window while it has room (a contaminated one set aside beside
/// it), then an uncontaminated one to the previous window while that has
/// room; every other word is passed over.
pub open spec fn windows_after(flags: Seq<ProbeFlags>, window: nat, n: int) -> ProbeWindowsView
    decreases n,
{
    if n <= 0 {
        ProbeWindowsView { current: seq![], contaminated: seq![], previous: seq![] }
    } else {
        let w = windows_after(flags, window, n - 1);
        let f = flags[n - 1];
        let i = (n - 1) as usize;
        if !f.measured {
            w
        } else if w.current.len() < window {
            if f.contaminated {
                ProbeWindowsView { contaminated: w.contaminated.push(i), ..w }
            } else {
                ProbeWindowsView { current: w.current.push(i), ..w }
            }
        } else if !f.contaminated && w.previous.len() < window {
            ProbeWindowsView { previous: w.previous.push(i), ..w }
        } else {
            w
        }
    }
}

/// Splits words, most recent first, into the probe trend's windows of
/// `window` uncontaminated measured probes each: the current one, the
/// contaminated probes set aside while it filled, and the one before it.
pub fn probe_windows(flags: &[ProbeFlags], window: usize) -> (r: ProbeWindows)
    ensures
        r@ == windows_after(flags@, window as nat, flags@.len() as int),
{
    let mut current: Vec<usize> = Vec::new();
    let mut contaminated: Vec<usize> = Vec::new();
    let mut previous: Vec<usize> = Vec::new();
    let mut i: usize = 0;
    while i < flags.len()
        invariant
            i <= flags@.len(),
            (ProbeWindowsView { current: current@, contaminated: contaminated@, previous: previous@ })
                == windows_after(flags@, window as nat, i as int),
        decreases flags@.len() - i,
    {
        let f = flags[i];
        if f.measured {
            if current.len() < window {
                if f.contaminated {
                    contaminated.push(i);
                } else {
                    current.push(i);
                }
            } else if !f.contaminated && previous.len() < window {
                previous.push(i);
            }
        }
        i += 1;
    }
    ProbeWindows { current, contaminated, previous }
}

/// Each window holds at most `window` probes, each a measured one whose
/// contamination puts it there, and the previous window only begins once
/// the current one is full.
pub proof fn lemma_probe_windows(flags: Seq<ProbeFlags>, window: nat, n: int)
    requires
        0 <= n <= flags.len(),
        flags.len() <= usize::MAX,
    ensures
        windows_after(flags, window, n).current.len() <= window,
        windows_after(flags, window, n).previous.len() <= window,
        forall|k: int| 0 <= k < windows_after(flags, window, n).current.len() ==> {
            let i = #[trigger] windows_after(flags, window, n).current[k] as int;
            0 <= i < n && flags[i].measured && !flags[i].contaminated
        },
        forall|k: int| 0 <= k < windows_after(flags, window, n).contaminated.len() ==> {
            let i = #[trigger] windows_after(flags, window, n).contaminated[k] as int;
            0 <= i < n && flags[i].measured && flags[i].contaminated
        },
        forall|k: int| 0 <= k < windows_after(flags, window, n).previous.len() ==> {
            let i = #[trigger] windows_after(flags, window, n).previous[k] as int;
            0 <= i < n && flags[i].measured && !flags[i].contaminated
        },
        windows_after(flags, window, n).previous.len() > 0 ==> windows_after(flags, window, n).current.len()
            == window,
    decreases n,
{
    if n > 0 {
        lemma_probe_windows(flags, window, n - 1);
        let w = windows_after(flags, window, n - 1);
        let v = windows_after(flags, window, n);
        assert(((n - 1) as usize) as int == n - 1);
        assert forall|k: int| 0 <= k < v.current.len() implies {
            let i = #[trigger] v.current[k] as int;
            0 <= i < n && flags[i].measured && !flags[i].contaminated
        } by {
            if k < w.current.len() {
                assert(v.current[k] == w.current[k]);
            }
        }
        assert forall|k: int| 0 <= k < v.contaminated.len() implies {
            let i = #[trigger] v.contaminated[k] as int;
            0 <= i < n && flags[i].measured && flags[i].contaminated
        } by {
            if k < w.contaminated.len() {
                assert(v.contaminated[k] == w.contaminated[k]);
            }
        }
        assert forall|k: int| 0 <= k < v.previous.len() implies {
            let i = #[trigger] v.previous[k] as int;
            0 <= i < n && flags[i].measured && !flags[i].contaminated
        } by {
            if k < w.previous.len() {
                assert(v.previous[k] == w.previous[k]);
            }
        }
    }
}

} // verus!
