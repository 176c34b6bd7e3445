//! Rebuilds what the user typed for each word from the event log.
//!
//! Every event records the caret it arrived at, so the caret the next event
//! records says what the editing rules did with it: a character that moved
//! the caret on was applied, a backspace that moved it back removed a
//! character, a keystroke that left it where it was changed nothing. The
//! analysis therefore reads the recorded fields and never needs the rules
//! that were in force when the session was typed.

use vstd::prelude::*;

use crate::session::{
    keystroke_kind, position_of, view_wf, EventKind, Outcome, SessionState, SessionView,
};

verus! {

/// What a keystroke did, as far as the first-attempt string is concerned.
#[derive(Debug, Clone, Copy, PartialEq, Eq, Structural)]
pub enum Role {
    /// Extended the word's first attempt, or submitted it for the first
    /// time.
    FirstAttempt,
    /// Retyped a position already attempted, or typed anything after the
    /// word was re-entered.
    Replacement,
    /// Removed a character or re-entered the previous word, or tried to.
    Backspace,
    /// Changed nothing: a space at a word start, an extra past the cap, or
    /// a pasted character.
    Ignored,
}

/// One keystroke event and its role.
#[derive(Debug, Clone, Copy, PartialEq, Eq, Structural)]
pub struct Keystroke {
    /// Index into the session's event log.
    pub event: usize,
    pub role: Role,
    /// For a backspace that removed an incorrect character: how long that
    /// character had stood.
    pub removed_error_after_micros: Option<u64>,
}

/// A character currently typed for a word: when it was typed and whether it
/// was wrong.
#[derive(Debug, Clone, Copy, PartialEq, Eq, Structural)]
pub struct TypedChar {
    pub ch: char,
    pub at_micros: u64,
    pub incorrect: bool,
}

/// How one word was typed.
#[derive(Debug, Clone)]
pub struct WordAttempt {
    /// Every character typed for the word in order, removed ones included.
    pub history: Vec<char>,
    /// The characters typed before any backspace plus those typed at
    /// positions never attempted before, frozen at the first submission.
    pub first_attempt: Vec<char>,
    /// The typed text at the word's first submission; `None` until then.
    pub submitted_text: Option<Vec<char>>,
    /// The characters currently typed, each with when it was typed and
    /// whether it was wrong.
    pub typed: Vec<TypedChar>,
}

/// What a word attempt holds.
pub struct AttemptView {
    pub history: Seq<char>,
    pub first_attempt: Seq<char>,
    pub submitted_text: Option<Seq<char>>,
    pub typed: Seq<TypedChar>,
}

impl View for WordAttempt {
    type V = AttemptView;

    open spec fn view(&self) -> AttemptView {
        AttemptView {
            history: self.history@,
            first_attempt: self.first_attempt@,
            submitted_text: match self.submitted_text {
                Some(t) => Some(t@),
                None => None,
            },
            typed: self.typed@,
        }
    }
}

/// An attempt at a word nothing was typed for.
pub open spec fn empty_attempt() -> AttemptView {
    AttemptView { history: seq![], first_attempt: seq![], submitted_text: None, typed: seq![] }
}

/// The character of the `i`th typed entry.
pub open spec fn typed_char_at(typed: Seq<TypedChar>, i: int) -> char {
    typed[i].ch
}

/// The characters currently typed.
pub open spec fn typed_text(typed: Seq<TypedChar>) -> Seq<char> {
    Seq::new(typed.len(), |i: int| typed_char_at(typed, i))
}

/// The caret after an event: the one the next event records, or the final
/// caret after the last.
pub open spec fn caret_after(v: SessionView, index: int) -> (usize, usize) {
    if index + 1 < v.events.len() {
        (v.events[index + 1].word_index, v.events[index + 1].position)
    } else {
        (v.current_word as usize, position_of(v) as usize)
    }
}

/// Whether the editing rules applied an event: it was not pasted and it
/// moved the caret, or it is the space that completed the session.
pub open spec fn was_applied(v: SessionView, index: int) -> bool {
    let e = v.events[index];
    &&& !e.flags.in_paste
    &&& (caret_after(v, index) != (e.word_index, e.position) || (e.kind == EventKind::Space
        && index + 1 == v.events.len() && v.outcome == Some(Outcome::Completed)))
}

/// A keystroke at `position` belongs to the first attempt only while the
/// word has not been submitted and the position has never been typed; a
/// character there is appended.
pub open spec fn extend_first(a: AttemptView, position: usize, c: Option<char>) -> (AttemptView, Role) {
    if a.submitted_text is Some || position != a.first_attempt.len() {
        (a, Role::Replacement)
    } else {
        (
            AttemptView {
                first_attempt: match c {
                    Some(ch) => a.first_attempt.push(ch),
                    None => a.first_attempt,
                },
                ..a
            },
            Role::FirstAttempt,
        )
    }
}

/// `a - b`, or zero when `b` is later.
pub open spec fn saturating_gap(a: u64, b: u64) -> u64 {
    if a >= b {
        (a - b) as u64
    } else {
        0
    }
}

/// What the keystroke event at `index` does to its word's attempt, its
/// role, and how long an incorrect character it removed had stood.
pub open spec fn keystroke_effect(v: SessionView, index: int, a: AttemptView) -> (AttemptView, Role, Option<u64>) {
    let e = v.events[index];
    let last = index + 1 == v.events.len();
    let completed = v.outcome == Some(Outcome::Completed);
    if e.kind == EventKind::Backspace && !e.flags.in_paste {
        if was_applied(v, index) && e.position > 0 && a.typed.len() > 0 {
            let removed = a.typed.last();
            (
                AttemptView { typed: a.typed.drop_last(), ..a },
                Role::Backspace,
                if removed.incorrect {
                    Some(saturating_gap(e.at_micros, removed.at_micros))
                } else {
                    None
                },
            )
        } else {
            (a, Role::Backspace, None)
        }
    } else if !was_applied(v, index) {
        (a, Role::Ignored, None)
    } else if e.kind == EventKind::Char {
        let c = e.actual->0;
        let b = AttemptView {
            history: a.history.push(c),
            typed: a.typed.push(TypedChar { ch: c, at_micros: e.at_micros, incorrect: Some(c) != e.expected }),
            ..a
        };
        let (d, role) = extend_first(b, e.position, Some(c));
        let f = if last && completed {
            AttemptView { submitted_text: Some(typed_text(d.typed)), ..d }
        } else {
            d
        };
        (f, role, None)
    } else {
        let (d, role) = extend_first(a, e.position, None);
        let f = if d.submitted_text is None {
            AttemptView { submitted_text: Some(typed_text(d.typed)), ..d }
        } else {
            d
        };
        (f, role, None)
    }
}

/// The words' attempts and the keystrokes' roles.
pub struct ReconView {
    pub words: Seq<AttemptView>,
    pub keystrokes: Seq<Keystroke>,
}

/// The reconstruction after the first `k` events of a session.
pub open spec fn reconstructed(v: SessionView, k: int) -> ReconView
    decreases k,
{
    if k <= 0 {
        ReconView { words: Seq::new(v.word_count, |i: int| empty_attempt()), keystrokes: seq![] }
    } else {
        let r = reconstructed(v, k - 1);
        let e = v.events[k - 1];
        if !keystroke_kind(e.kind) {
            r
        } else {
            let (a, role, removed) = keystroke_effect(v, k - 1, r.words[e.word_index as int]);
            ReconView {
                words: r.words.update(e.word_index as int, a),
                keystrokes: r.keystrokes.push(
                    Keystroke { event: (k - 1) as usize, role, removed_error_after_micros: removed },
                ),
            }
        }
    }
}

/// The reconstruction of a whole session.
pub open spec fn reconstruction_of(v: SessionView) -> ReconView {
    reconstructed(v, v.events.len() as int)
}

/// A correction: a backspace, or a keystroke that is not part of a first
/// attempt.
pub open spec fn is_correction(k: Keystroke) -> bool {
    k.role == Role::Backspace || k.role == Role::Replacement
}

/// The number of corrections among the first `n` keystrokes.
pub open spec fn corrections_in(keystrokes: Seq<Keystroke>, n: int) -> nat
    decreases n,
{
    if n <= 0 {
        0
    } else {
        corrections_in(keystrokes, n - 1) + if is_correction(keystrokes[n - 1]) {
            1nat
        } else {
            0nat
        }
    }
}

impl WordAttempt {
    fn new() -> (r: WordAttempt)
        ensures
            r@ == empty_attempt(),
    {
        WordAttempt { history: Vec::new(), first_attempt: Vec::new(), submitted_text: None, typed: Vec::new() }
    }

    /// Whether the word was submitted: left with a space, or the word the
    /// session completed on.
    pub fn submitted(&self) -> (r: bool)
        ensures
            r == self@.submitted_text is Some,
    {
        self.submitted_text.is_some()
    }

    /// The characters currently typed.
    fn text(&self) -> (r: Vec<char>)
        ensures
            r@ == typed_text(self@.typed),
    {
        let mut out: Vec<char> = Vec::new();
        let mut i: usize = 0;
        while i < self.typed.len()
            invariant
                i <= self.typed@.len(),
                out@ == typed_text(self.typed@).take(i as int),
            decreases self.typed@.len() - i,
        {
            out.push(self.typed[i].ch);
            proof {
                assert(typed_text(self.typed@).take(i + 1) =~= typed_text(self.typed@).take(i as int).push(
                    self.typed@[i as int].ch,
                ));
            }
            i += 1;
        }
        proof {
            assert(typed_text(self.typed@).take(i as int) =~= typed_text(self.typed@));
        }
        out
    }

    /// Appends to the first attempt when the keystroke belongs to it.
    fn extend_first_attempt(&mut self, position: usize, c: Option<char>) -> (role: Role)
        ensures
            (final(self)@, role) == extend_first(old(self)@, position, c),
    {
        if self.submitted() || position != self.first_attempt.len() {
            return Role::Replacement;
        }
        match c {
            Some(ch) => self.first_attempt.push(ch),
            None => {},
        }
        Role::FirstAttempt
    }
}

/// How a session's words were typed and what each keystroke did.
pub struct Reconstruction {
    pub words: Vec<WordAttempt>,
    pub keystrokes: Vec<Keystroke>,
}

impl View for Reconstruction {
    type V = ReconView;

    open spec fn view(&self) -> ReconView {
        ReconView { words: Seq::new(self.words@.len(), |i: int| self.words@[i]@), keystrokes: self.keystrokes@ }
    }
}

impl Reconstruction {
    /// Correction keystrokes: backspaces and every keystroke that is not
    /// part of a first attempt.
    pub fn corrections(&self) -> (r: usize)
        ensures
            r == corrections_in(self@.keystrokes, self@.keystrokes.len() as int),
    {
        let mut count: usize = 0;
        let mut i: usize = 0;
        while i < self.keystrokes.len()
            invariant
                i <= self.keystrokes@.len(),
                count == corrections_in(self.keystrokes@, i as int),
                count <= i,
            decreases self.keystrokes@.len() - i,
        {
            let role = self.keystrokes[i].role;
            if role == Role::Backspace || role == Role::Replacement {
                count += 1;
            }
            i += 1;
        }
        count
    }
}

/// The keystroke event at `index` applied to its word's attempt.
fn apply_keystroke(attempt: &mut WordAttempt, state: &SessionState, index: usize) -> (r: (Role, Option<u64>))
    requires
        state.wf(),
        index < state@.events.len(),
        keystroke_kind(state@.events[index as int].kind),
    ensures
        (final(attempt)@, r.0, r.1) == keystroke_effect(state@, index as int, old(attempt)@),
{
    proof {
        state.lemma_wf();
    }
    let events = state.events();
    let event = events[index];
    let last = index + 1 == events.len();
    let caret_after = if index + 1 < events.len() {
        (events[index + 1].word_index, events[index + 1].position)
    } else {
        (state.current_word(), state.position())
    };
    let completed = state.outcome() == Some(Outcome::Completed);
    let applied = !event.flags.in_paste && (caret_after.0 != event.word_index || caret_after.1 != event.position
        || (event.kind == EventKind::Space && last && completed));
    if event.kind == EventKind::Backspace && !event.flags.in_paste {
        if applied && event.position > 0 {
            match attempt.typed.pop() {
                Some(removed) => {
                    if removed.incorrect {
                        let gap = if event.at_micros >= removed.at_micros {
                            event.at_micros - removed.at_micros
                        } else {
                            0
                        };
                        return (Role::Backspace, Some(gap));
                    }
                },
                None => {},
            }
        }
        return (Role::Backspace, None);
    }
    if !applied {
        return (Role::Ignored, None);
    }
    if event.kind == EventKind::Char {
        let c = event.actual.unwrap();
        attempt.history.push(c);
        attempt.typed.push(TypedChar { ch: c, at_micros: event.at_micros, incorrect: Some(c) != event.expected });
        let role = attempt.extend_first_attempt(event.position, Some(c));
        if last && completed {
            attempt.submitted_text = Some(attempt.text());
        }
        (role, None)
    } else {
        let role = attempt.extend_first_attempt(event.position, None);
        if !attempt.submitted() {
            attempt.submitted_text = Some(attempt.text());
        }
        (role, None)
    }
}

/// Rebuilds each word's attempt and each keystroke's role from a session's
/// event log.
pub fn reconstruct(state: &SessionState) -> (r: Reconstruction)
    requires
        state.wf(),
    ensures
        r@ == reconstruction_of(state@),
{
    proof {
        state.lemma_wf();
    }
    let ghost v = state@;
    let events = state.events();
    let word_count = state.word_count();
    let mut words: Vec<WordAttempt> = Vec::new();
    let mut w: usize = 0;
    while w < word_count
        invariant
            w <= word_count,
            words@.len() == w,
            forall|i: int| 0 <= i < w ==> (#[trigger] words@[i])@ == empty_attempt(),
        decreases word_count - w,
    {
        words.push(WordAttempt::new());
        w += 1;
    }
    let mut keystrokes: Vec<Keystroke> = Vec::new();
    let ghost start = Reconstruction { words, keystrokes }@;
    proof {
        assert(start.words =~= reconstructed(v, 0).words);
    }
    let mut index: usize = 0;
    while index < events.len()
        invariant
            state.wf(),
            v == state@,
            view_wf(v),
            events@ == v.events,
            index <= events@.len(),
            words@.len() == v.word_count,
            (Reconstruction { words, keystrokes })@ == reconstructed(v, index as int),
        decreases events@.len() - index,
    {
        let event = events[index];
        if event.kind.is_keystroke() {
            let ghost before = (Reconstruction { words, keystrokes })@;
            let (role, removed) = apply_keystroke(&mut words[event.word_index], state, index);
            keystrokes.push(Keystroke { event: index, role, removed_error_after_micros: removed });
            proof {
                let after = (Reconstruction { words, keystrokes })@;
                let expected = reconstructed(v, index + 1);
                assert(after.words =~= expected.words);
            }
        }
        index += 1;
    }
    Reconstruction { words, keystrokes }
}

/// A reconstruction has an attempt for every covered word.
pub proof fn lemma_reconstructed_words_len(v: SessionView, k: int)
    requires
        view_wf(v),
        k <= v.events.len(),
    ensures
        reconstructed(v, k).words.len() == v.word_count,
    decreases k,
{
    if k > 0 {
        lemma_reconstructed_words_len(v, k - 1);
    }
}

/// Every keystroke names an event of the log.
pub proof fn lemma_keystroke_events(v: SessionView, k: int)
    requires
        k <= v.events.len(),
    ensures
        forall|i: int|
            0 <= i < reconstructed(v, k).keystrokes.len() ==> (#[trigger] reconstructed(v, k).keystrokes[i]).event
                < k,
    decreases k,
{
    if k > 0 {
        lemma_keystroke_events(v, k - 1);
    }
}

} // verus!
