//! The live editing state of one session and the rules that drive it.
//!
//! Nothing here knows about a terminal: the session receives decoded
//! [`Input`]s, records the ones that count as [`InputEvent`]s, and updates
//! the typed text. The same prompt and the same inputs always produce the
//! same state, so a stored event log reproduces a session exactly.

mod event;
mod laws;

pub use event::{
    event_replayable, input_of_event, keystroke_kind, kind_name, kind_named, key_of_event,
    lemma_kind_names_round_trip, EventFlags, EventKind, Input, InputEvent, Key, LONG_PAUSE_MICROS,
};

pub use laws::{
    lemma_replay_reproduces, lemma_replayed_step, lemma_run_keeps_invariant, lemma_run_keeps_prompt,
    lemma_step_effects, lemma_step_keeps_invariant,
};

use vstd::prelude::*;

use crate::prompt::Prompt;
use crate::text::{char_is_control, is_control, str_equal};

verus! {

/// Identifies the editing rules in this module. Bump whenever a rule changes
/// so stored sessions can tell which rules their events were captured under.
pub const SEMANTICS_VERSION: u32 = 1;

/// The most extra characters a word accepts; further printable input is
/// recorded but ignored.
pub const MAX_EXTRAS: usize = 8;

const ESCAPE: char = '\u{1b}';

const CTRL_C: char = '\u{3}';

/// When a session is over. Only a fixed word count exists; open so a timed
/// variant can be added later.
#[derive(Debug, Clone, Copy, PartialEq, Eq, Structural)]
#[non_exhaustive]
pub enum EndCondition {
    /// After this many words of the prompt; clamped to the prompt's length
    /// and to at least one word.
    AfterWords(usize),
}

/// How a session ended.
#[derive(Debug, Clone, Copy, PartialEq, Eq, Structural)]
pub enum Outcome {
    /// The prompt was reached to its end.
    Completed,
    /// The user ended the session early.
    Interrupted,
}

/// The stable name each outcome is stored under.
pub open spec fn outcome_name(outcome: Outcome) -> Seq<char> {
    match outcome {
        Outcome::Completed => "completed"@,
        Outcome::Interrupted => "interrupted"@,
    }
}

/// The outcome stored under a name, if any.
pub open spec fn outcome_named(name: Seq<char>) -> Option<Outcome> {
    if name == "completed"@ {
        Some(Outcome::Completed)
    } else if name == "interrupted"@ {
        Some(Outcome::Interrupted)
    } else {
        None
    }
}

/// Every outcome reads back from its stored name.
pub proof fn lemma_outcome_names_round_trip(outcome: Outcome)
    ensures
        outcome_named(outcome_name(outcome)) == Some(outcome),
{
    reveal_strlit("completed");
    reveal_strlit("interrupted");
    assert("completed"@.len() == 9);
    assert("interrupted"@.len() == 11);
}

impl Outcome {
    /// The outcome's stable name, as stored with the session. Never renamed.
    pub fn name(self) -> (r: &'static str)
        ensures
            r@ == outcome_name(self),
    {
        match self {
            Outcome::Completed => "completed",
            Outcome::Interrupted => "interrupted",
        }
    }

    /// The outcome with the given stored name, if this version knows it.
    pub fn from_name(name: &str) -> (r: Option<Outcome>)
        ensures
            r == outcome_named(name@),
    {
        if str_equal(name, "completed") {
            Some(Outcome::Completed)
        } else if str_equal(name, "interrupted") {
            Some(Outcome::Interrupted)
        } else {
            None
        }
    }
}

/// What one input did, for the renderer. The analysis never reads effects;
/// it works from the finished state and the event log.
#[derive(Debug, Clone, Copy, PartialEq, Eq, Structural, Default)]
pub struct Effects {
    /// The input was appended to the event log.
    pub recorded: bool,
    /// The typed text or caret moved, so the display must be laid out again.
    pub changed: bool,
    /// This input ended the session.
    pub ended: Option<Outcome>,
}

/// Effects of an input that did nothing.
pub open spec fn no_effects() -> Effects {
    Effects { recorded: false, changed: false, ended: None }
}

/// The abstract state of a session.
pub struct SessionView {
    pub prompt: Seq<Seq<char>>,
    pub word_count: nat,
    /// Characters currently typed for each covered word, extras included.
    pub typed: Seq<Seq<char>>,
    pub current_word: nat,
    pub events: Seq<InputEvent>,
    pub outcome: Option<Outcome>,
    pub started_at: Option<u64>,
    pub previous_keystroke_at: Option<u64>,
    pub resized_since_keystroke: bool,
}

/// The words a session covers under an end condition.
pub open spec fn covered_words(word_count: nat, end: EndCondition) -> nat {
    match end {
        EndCondition::AfterWords(n) => if n < 1 {
            1
        } else if n > word_count {
            word_count
        } else {
            n as nat
        },
    }
}

/// The state before any input.
pub open spec fn initial(prompt: Seq<Seq<char>>, end: EndCondition) -> SessionView {
    let n = covered_words(prompt.len(), end);
    SessionView {
        prompt,
        word_count: n,
        typed: Seq::new(n, |i: int| Seq::<char>::empty()),
        current_word: 0,
        events: seq![],
        outcome: None,
        started_at: None,
        previous_keystroke_at: None,
        resized_since_keystroke: false,
    }
}

/// Which event a key records, if any, together with the character it
/// produces. `Esc` and `Ctrl-C` arriving as characters are interrupts;
/// other control characters and non-character keys record nothing.
pub open spec fn classified(key: Key) -> Option<(EventKind, Option<char>)> {
    match key {
        Key::Char(c) => if c == ' ' {
            Some((EventKind::Space, Some(' ')))
        } else if c == '\u{1b}' || c == '\u{3}' {
            Some((EventKind::Interrupt, None))
        } else if char_is_control(c) {
            None
        } else {
            Some((EventKind::Char, Some(c)))
        },
        Key::Backspace => Some((EventKind::Backspace, None)),
        Key::Resize => Some((EventKind::Resize, None)),
        Key::Interrupt => Some((EventKind::Interrupt, None)),
        Key::Other => None,
    }
}

/// The caret's position within the current word.
pub open spec fn position_of(v: SessionView) -> nat {
    v.typed[v.current_word as int].len()
}

/// The character the prompt expects at the caret.
pub open spec fn expected_of(v: SessionView) -> char {
    let word = v.prompt[v.current_word as int];
    if position_of(v) < word.len() {
        word[position_of(v) as int]
    } else {
        ' '
    }
}

/// Whether a word, as currently typed, differs from its target.
pub open spec fn has_error(v: SessionView, word: int) -> bool {
    v.typed[word] != v.prompt[word]
}

/// Whether the caret is in the last covered word.
pub open spec fn in_final_word(v: SessionView) -> bool {
    v.current_word + 1 == v.word_count
}

/// Appends the event for an input and updates the timing state.
pub open spec fn recorded(v: SessionView, input: Input, kind: EventKind, actual: Option<char>) -> SessionView {
    let timed = keystroke_kind(kind) && !input.in_paste;
    let first = timed && kind == EventKind::Char && v.started_at is None;
    let started = if first { Some(input.at_micros) } else { v.started_at };
    let long_pause = timed && match v.previous_keystroke_at {
        Some(prev) => input.at_micros >= prev && input.at_micros - prev >= LONG_PAUSE_MICROS,
        None => false,
    };
    let flags = EventFlags {
        first_of_session: first,
        after_resize: timed && v.resized_since_keystroke,
        in_paste: input.in_paste,
        burst: input.burst,
        long_pause,
    };
    let event = InputEvent {
        seq: v.events.len() as u32,
        at_micros: input.at_micros,
        kind,
        expected: if keystroke_kind(kind) { Some(expected_of(v)) } else { None },
        actual,
        word_index: v.current_word as usize,
        position: position_of(v) as usize,
        flags,
    };
    SessionView {
        events: v.events.push(event),
        started_at: started,
        previous_keystroke_at: if timed && started is Some {
            Some(input.at_micros)
        } else {
            v.previous_keystroke_at
        },
        resized_since_keystroke: if timed { false } else { v.resized_since_keystroke },
        ..v
    }
}

/// Appends a printable character to the current word unless the word is at
/// its cap of extras.
pub open spec fn typed_char(v: SessionView, c: char) -> (SessionView, bool) {
    let cw = v.current_word as int;
    if position_of(v) >= v.prompt[cw].len() + MAX_EXTRAS {
        (v, false)
    } else {
        (SessionView { typed: v.typed.update(cw, v.typed[cw].push(c)), ..v }, true)
    }
}

/// Removes the last typed character, or re-enters the previous word when at
/// the start of one and that word was left with an uncorrected error.
pub open spec fn backspaced(v: SessionView) -> (SessionView, bool) {
    let cw = v.current_word as int;
    if position_of(v) > 0 {
        (SessionView { typed: v.typed.update(cw, v.typed[cw].drop_last()), ..v }, true)
    } else if v.current_word > 0 && has_error(v, cw - 1) {
        (SessionView { current_word: (v.current_word - 1) as nat, ..v }, true)
    } else {
        (v, false)
    }
}

/// What one input does to a session: the state after it and its effects.
pub open spec fn step(v: SessionView, input: Input) -> (SessionView, Effects) {
    if v.outcome is Some {
        (v, no_effects())
    } else {
        match classified(input.key) {
            None => (v, no_effects()),
            Some((kind, actual)) => {
                let r = recorded(v, input, kind, actual);
                let base = Effects { recorded: true, changed: false, ended: None };
                if input.in_paste {
                    (r, base)
                } else {
                    match kind {
                        EventKind::Char => {
                            let (t, changed) = typed_char(r, actual->0);
                            if changed && in_final_word(t) && !has_error(t, t.current_word as int) {
                                (
                                    SessionView { outcome: Some(Outcome::Completed), ..t },
                                    Effects { changed, ended: Some(Outcome::Completed), ..base },
                                )
                            } else {
                                (t, Effects { changed, ..base })
                            }
                        },
                        EventKind::Space => {
                            if position_of(r) > 0 {
                                if in_final_word(r) {
                                    (
                                        SessionView { outcome: Some(Outcome::Completed), ..r },
                                        Effects { changed: true, ended: Some(Outcome::Completed), ..base },
                                    )
                                } else {
                                    (
                                        SessionView { current_word: r.current_word + 1, ..r },
                                        Effects { changed: true, ..base },
                                    )
                                }
                            } else {
                                (r, base)
                            }
                        },
                        EventKind::Backspace => {
                            let (b, changed) = backspaced(r);
                            (b, Effects { changed, ..base })
                        },
                        EventKind::Interrupt => (
                            SessionView { outcome: Some(Outcome::Interrupted), ..r },
                            Effects { ended: Some(Outcome::Interrupted), ..base },
                        ),
                        EventKind::Resize => (SessionView { resized_since_keystroke: true, ..r }, base),
                    }
                }
            },
        }
    }
}

/// The state after applying inputs in order.
pub open spec fn run(v: SessionView, inputs: Seq<Input>) -> SessionView
    decreases inputs.len(),
{
    if inputs.len() == 0 {
        v
    } else {
        step(run(v, inputs.drop_last()), inputs.last()).0
    }
}

/// The inputs that replay an event log.
pub open spec fn inputs_of(events: Seq<InputEvent>) -> Seq<Input> {
    Seq::new(events.len(), |i: int| input_of_event(events[i]))
}

/// The invariant every reachable session state keeps: the caret lies in a
/// covered word and within that word's cap of extras, no word after the
/// caret has been typed, and the event log is numbered from zero,
/// replayable, and resolved against covered words.
pub open spec fn view_wf(v: SessionView) -> bool {
    &&& 1 <= v.word_count <= v.prompt.len()
    &&& v.typed.len() == v.word_count
    &&& v.current_word < v.word_count
    &&& forall|w: int|
        0 <= w < v.word_count ==> #[trigger] v.typed[w].len() <= v.prompt[w].len() + MAX_EXTRAS
    &&& forall|w: int| v.current_word < w < v.word_count ==> #[trigger] v.typed[w].len() == 0
    &&& forall|i: int| 0 <= i < v.events.len() ==> (#[trigger] v.events[i]).seq == i
    &&& forall|i: int| 0 <= i < v.events.len() ==> event_replayable(#[trigger] v.events[i])
    &&& forall|i: int| 0 <= i < v.events.len() ==> (#[trigger] v.events[i]).word_index < v.word_count
    &&& forall|i: int|
        0 <= i < v.events.len() ==> ((#[trigger] v.events[i]).flags.first_of_session ==> !v.events[i].flags.in_paste)
}

/// The state of one session: the prompt, the text typed for each word, the
/// caret, and the events recorded so far.
#[derive(Debug, Clone, PartialEq, Eq)]
pub struct SessionState {
    prompt: Prompt,
    word_count: usize,
    words: Vec<Vec<char>>,
    current_word: usize,
    events: Vec<InputEvent>,
    outcome: Option<Outcome>,
    started_at_micros: Option<u64>,
    previous_keystroke_at: Option<u64>,
    resized_since_keystroke: bool,
}

impl View for SessionState {
    type V = SessionView;

    closed spec fn view(&self) -> SessionView {
        SessionView {
            prompt: self.prompt@,
            word_count: self.word_count as nat,
            typed: Seq::new(self.words@.len(), |i: int| self.words@[i]@),
            current_word: self.current_word as nat,
            events: self.events@,
            outcome: self.outcome,
            started_at: self.started_at_micros,
            previous_keystroke_at: self.previous_keystroke_at,
            resized_since_keystroke: self.resized_since_keystroke,
        }
    }
}

impl SessionState {
    /// The state is well formed: its prompt is, and its view keeps the
    /// session invariant.
    pub closed spec fn wf(&self) -> bool {
        &&& self.prompt.wf()
        &&& self.words@.len() == self.word_count
        &&& view_wf(self@)
    }

    /// A well-formed state keeps the session invariant.
    pub proof fn lemma_wf(&self)
        requires
            self.wf(),
        ensures
            view_wf(self@),
    {
    }

    pub fn new(prompt: Prompt, end: EndCondition) -> (s: SessionState)
        requires
            prompt.wf(),
        ensures
            s.wf(),
            s@ == initial(prompt@, end),
    {
        proof {
            prompt.lemma_wf();
        }
        let count = prompt.word_count();
        let word_count = match end {
            EndCondition::AfterWords(n) => if n < 1 {
                1
            } else if n > count {
                count
            } else {
                n
            },
        };
        let mut words: Vec<Vec<char>> = Vec::new();
        let mut i: usize = 0;
        while i < word_count
            invariant
                i <= word_count,
                words@.len() == i,
                forall|k: int| 0 <= k < i ==> (#[trigger] words@[k])@ == Seq::<char>::empty(),
            decreases word_count - i,
        {
            let empty: Vec<char> = Vec::new();
            assert(empty@ =~= Seq::<char>::empty());
            words.push(empty);
            i += 1;
        }
        let s = SessionState {
            prompt,
            word_count,
            words,
            current_word: 0,
            events: Vec::new(),
            outcome: None,
            started_at_micros: None,
            previous_keystroke_at: None,
            resized_since_keystroke: false,
        };
        assert(s@.typed =~= initial(s.prompt@, end).typed);
        s
    }

    pub fn prompt(&self) -> (r: &Prompt)
        ensures
            r@ == self@.prompt,
            self.wf() ==> r.wf(),
    {
        &self.prompt
    }

    /// Rebuilds the state a stored event log left behind by applying every
    /// event again in order. The same prompt and events always produce the
    /// same state, so the result is identical to the one recorded live.
    pub fn replay(prompt: Prompt, end: EndCondition, events: &[InputEvent]) -> (s: SessionState)
        requires
            prompt.wf(),
            events@.len() <= u32::MAX,
            forall|i: int| 0 <= i < events@.len() ==> event_replayable(#[trigger] events@[i]),
        ensures
            s.wf(),
            s@ == run(initial(prompt@, end), inputs_of(events@)),
    {
        let mut state = SessionState::new(prompt, end);
        let ghost start = state@;
        let mut i: usize = 0;
        while i < events.len()
            invariant
                i <= events@.len(),
                events@.len() <= u32::MAX,
                forall|k: int| 0 <= k < events@.len() ==> event_replayable(#[trigger] events@[k]),
                state.wf(),
                state@.events.len() <= i,
                state@ == run(start, inputs_of(events@).take(i as int)),
            decreases events@.len() - i,
        {
            let input = events[i].input();
            state.apply_event(input);
            proof {
                let ins = inputs_of(events@).take(i + 1);
                assert(ins.drop_last() =~= inputs_of(events@).take(i as int));
                assert(ins.last() == input);
            }
            i += 1;
        }
        proof {
            assert(inputs_of(events@).take(events@.len() as int) =~= inputs_of(events@));
        }
        state
    }

    /// How many words of the prompt the session covers.
    pub fn word_count(&self) -> (r: usize)
        ensures
            r == self@.word_count,
    {
        self.word_count
    }

    /// Index of the word the caret is in.
    pub fn current_word(&self) -> (r: usize)
        ensures
            r == self@.current_word,
    {
        self.current_word
    }

    /// The caret's position within the current word: the number of
    /// characters typed there, extras included.
    pub fn position(&self) -> (r: usize)
        requires
            self.wf(),
        ensures
            r == position_of(self@),
    {
        self.words[self.current_word].len()
    }

    /// Characters currently typed for a word, extras included.
    pub fn typed(&self, word: usize) -> (r: &[char])
        requires
            self.wf(),
            word < self@.word_count,
        ensures
            r@ == self@.typed[word as int],
    {
        self.words[word].as_slice()
    }

    /// Words the caret has moved past. Every word before the caret has been
    /// submitted; once the session completes, every word counts.
    pub fn words_completed(&self) -> (r: usize)
        ensures
            r == (if self@.outcome == Some(Outcome::Completed) {
                self@.word_count
            } else {
                self@.current_word
            }),
    {
        match self.outcome {
            Some(Outcome::Completed) => self.word_count,
            _ => self.current_word,
        }
    }

    pub fn events(&self) -> (r: &[InputEvent])
        ensures
            r@ == self@.events,
    {
        self.events.as_slice()
    }

    pub fn outcome(&self) -> (r: Option<Outcome>)
        ensures
            r == self@.outcome,
    {
        self.outcome
    }

    /// When the first printable character was typed: the start of the
    /// session's timer. `None` until then.
    pub fn started_at_micros(&self) -> (r: Option<u64>)
        ensures
            r == self@.started_at,
    {
        self.started_at_micros
    }

    /// Whether a word, as currently typed, differs from its target.
    pub fn has_uncorrected_error(&self, word: usize) -> (r: bool)
        requires
            self.wf(),
            word < self@.word_count,
        ensures
            r == has_error(self@, word as int),
    {
        let typed = self.words[word].as_slice();
        let target = self.prompt.word_chars(word);
        !crate::text::chars_equal(typed, target)
    }

    /// The character the prompt expects at the caret: the target character
    /// at the caret's position, or the word's following space once the word
    /// is fully typed.
    pub fn expected(&self) -> (r: char)
        requires
            self.wf(),
        ensures
            r == expected_of(self@),
    {
        let word = self.prompt.word_chars(self.current_word);
        let position = self.words[self.current_word].len();
        if position < word.len() {
            word[position]
        } else {
            ' '
        }
    }

    /// Applies one input: records it if it is an event, updates the typed
    /// text if it is applied, and reports what happened.
    ///
    /// Every printable character, space, and backspace is recorded whether
    /// or not it changed anything (a space at a word start, a refused
    /// extra), as are resizes and interrupts; only control characters and
    /// non-character keys are dropped. Pasted input is recorded but never
    /// applied. Nothing is recorded once the session is over.
    pub fn apply_event(&mut self, input: Input) -> (effects: Effects)
        requires
            old(self).wf(),
            old(self)@.events.len() <= u32::MAX,
        ensures
            final(self).wf(),
            (final(self)@, effects) == step(old(self)@, input),
    {
        if self.outcome.is_some() {
            return Effects { recorded: false, changed: false, ended: None };
        }
        let (kind, actual) = match classify(input.key) {
            None => {
                return Effects { recorded: false, changed: false, ended: None };
            },
            Some(found) => found,
        };
        self.record(input, kind, actual);
        let mut effects = Effects { recorded: true, changed: false, ended: None };
        if input.in_paste {
            return effects;
        }
        match kind {
            EventKind::Char => {
                let c = actual.unwrap();
                effects.changed = self.type_char(c);
                if effects.changed && self.current_word + 1 == self.word_count
                    && !self.has_uncorrected_error(self.current_word) {
                    self.outcome = Some(Outcome::Completed);
                    effects.ended = Some(Outcome::Completed);
                }
            },
            EventKind::Space => {
                if self.position() > 0 {
                    effects.changed = true;
                    if self.current_word + 1 == self.word_count {
                        self.outcome = Some(Outcome::Completed);
                        effects.ended = Some(Outcome::Completed);
                    } else {
                        self.current_word = self.current_word + 1;
                    }
                }
            },
            EventKind::Backspace => {
                effects.changed = self.backspace();
            },
            EventKind::Interrupt => {
                self.outcome = Some(Outcome::Interrupted);
                effects.ended = Some(Outcome::Interrupted);
            },
            EventKind::Resize => {
                self.resized_since_keystroke = true;
            },
        }
        effects
    }

    fn record(&mut self, input: Input, kind: EventKind, actual: Option<char>)
        requires
            old(self).wf(),
            old(self)@.events.len() <= u32::MAX,
            old(self)@.outcome is None,
            classified(input.key) == Some((kind, actual)),
        ensures
            final(self).wf(),
            final(self)@ == recorded(old(self)@, input, kind, actual),
    {
        let mut flags = EventFlags {
            first_of_session: false,
            after_resize: false,
            in_paste: input.in_paste,
            burst: input.burst,
            long_pause: false,
        };
        if kind.is_keystroke() && !input.in_paste {
            if kind == EventKind::Char && self.started_at_micros.is_none() {
                self.started_at_micros = Some(input.at_micros);
                flags.first_of_session = true;
            }
            flags.after_resize = self.resized_since_keystroke;
            flags.long_pause = match self.previous_keystroke_at {
                Some(prev) => input.at_micros >= prev && input.at_micros - prev >= LONG_PAUSE_MICROS,
                None => false,
            };
            self.resized_since_keystroke = false;
            if self.started_at_micros.is_some() {
                self.previous_keystroke_at = Some(input.at_micros);
            }
        }
        let expected = if kind.is_keystroke() {
            Some(self.expected())
        } else {
            None
        };
        let seq = self.events.len() as u32;
        let position = self.position();
        self.events.push(
            InputEvent {
                seq,
                at_micros: input.at_micros,
                kind,
                expected,
                actual,
                word_index: self.current_word,
                position,
                flags,
            },
        );
    }

    /// Appends a printable character to the current word; returns whether
    /// it was accepted (the extra-character cap may refuse it).
    fn type_char(&mut self, c: char) -> (accepted: bool)
        requires
            old(self).wf(),
        ensures
            final(self).wf(),
            (final(self)@, accepted) == typed_char(old(self)@, c),
    {
        let target_len = self.prompt.word_len(self.current_word);
        let typed_len = self.words[self.current_word].len();
        if typed_len >= target_len && typed_len - target_len >= MAX_EXTRAS {
            return false;
        }
        let cw = self.current_word;
        self.words[cw].push(c);
        proof {
            assert(self@.typed =~= old(self)@.typed.update(cw as int, old(self)@.typed[cw as int].push(c)));
        }
        true
    }

    /// Removes the last typed character, or re-enters the previous word when
    /// at the start of one and that word was left with an uncorrected error.
    fn backspace(&mut self) -> (changed: bool)
        requires
            old(self).wf(),
        ensures
            final(self).wf(),
            (final(self)@, changed) == backspaced(old(self)@),
    {
        let cw = self.current_word;
        if self.words[cw].len() > 0 {
            self.words[cw].pop();
            proof {
                assert(self@.typed =~= old(self)@.typed.update(cw as int, old(self)@.typed[cw as int].drop_last()));
            }
            return true;
        }
        if cw > 0 && self.has_uncorrected_error(cw - 1) {
            self.current_word = cw - 1;
            return true;
        }
        false
    }
}

/// Which event a key records, if any, together with the character it
/// produces.
fn classify(key: Key) -> (r: Option<(EventKind, Option<char>)>)
    ensures
        r == classified(key),
{
    match key {
        Key::Char(c) => {
            if c == ' ' {
                Some((EventKind::Space, Some(' ')))
            } else if c == ESCAPE || c == CTRL_C {
                Some((EventKind::Interrupt, None))
            } else if is_control(c) {
                None
            } else {
                Some((EventKind::Char, Some(c)))
            }
        },
        Key::Backspace => Some((EventKind::Backspace, None)),
        Key::Resize => Some((EventKind::Resize, None)),
        Key::Interrupt => Some((EventKind::Interrupt, None)),
        Key::Other => None,
    }
}

} // verus!
