//! Decoded terminal inputs and the events recorded from them.

use vstd::prelude::*;

use crate::text::str_equal;

verus! {

/// A decoded terminal input as the session receives it, before it has been
/// resolved against the prompt. The caller supplies only what it alone
/// knows: when the input arrived, which key it was, and whether it came
/// inside a bracketed paste or later in a batch of pending inputs.
#[derive(Debug, Clone, Copy, PartialEq, Eq, Structural)]
pub struct Input {
    /// Monotonic time in microseconds from raw-mode entry.
    pub at_micros: u64,
    pub key: Key,
    pub in_paste: bool,
    pub burst: bool,
}

impl Input {
    pub fn new(at_micros: u64, key: Key) -> (r: Input)
        ensures
            r == (Input { at_micros, key, in_paste: false, burst: false }),
    {
        Input { at_micros, key, in_paste: false, burst: false }
    }

    /// The same input, arrived inside a bracketed paste.
    pub fn in_paste(self) -> (r: Input)
        ensures
            r == (Input { in_paste: true, ..self }),
    {
        Input { in_paste: true, ..self }
    }

    /// The same input, read after the first input of a batch.
    pub fn burst(self) -> (r: Input)
        ensures
            r == (Input { burst: true, ..self }),
    {
        Input { burst: true, ..self }
    }
}

/// The key a terminal input decoded to. Space arrives as `Char(' ')`;
/// control characters such as Enter and Tab arrive as `Char` too and are
/// ignored, except `Esc` and `Ctrl-C`, which count as `Interrupt`. `Other`
/// is any non-character key (arrows, function keys) and is likewise
/// ignored.
#[derive(Debug, Clone, Copy, PartialEq, Eq, Structural)]
pub enum Key {
    Char(char),
    Backspace,
    Resize,
    /// `Ctrl-C` or `Esc`, already decoded by the terminal.
    Interrupt,
    Other,
}

/// What kind of input an event records. Open: modes added later may record
/// further kinds, so matches outside this crate must have a wildcard arm.
#[derive(Debug, Clone, Copy, PartialEq, Eq, Structural, Hash)]
#[non_exhaustive]
pub enum EventKind {
    Char,
    Backspace,
    Space,
    Resize,
    Interrupt,
}

/// A key the user pressed to edit, as opposed to a resize or interrupt.
pub open spec fn keystroke_kind(kind: EventKind) -> bool {
    kind == EventKind::Char || kind == EventKind::Backspace || kind == EventKind::Space
}

/// The stable name each kind is stored under.
pub open spec fn kind_name(kind: EventKind) -> Seq<char> {
    match kind {
        EventKind::Char => "char"@,
        EventKind::Backspace => "backspace"@,
        EventKind::Space => "space"@,
        EventKind::Resize => "resize"@,
        EventKind::Interrupt => "interrupt"@,
    }
}

/// The kind stored under a name, if any.
pub open spec fn kind_named(name: Seq<char>) -> Option<EventKind> {
    if name == "char"@ {
        Some(EventKind::Char)
    } else if name == "backspace"@ {
        Some(EventKind::Backspace)
    } else if name == "space"@ {
        Some(EventKind::Space)
    } else if name == "resize"@ {
        Some(EventKind::Resize)
    } else if name == "interrupt"@ {
        Some(EventKind::Interrupt)
    } else {
        None
    }
}

/// Every kind reads back from its stored name.
pub proof fn lemma_kind_names_round_trip(kind: EventKind)
    ensures
        kind_named(kind_name(kind)) == Some(kind),
{
    reveal_strlit("char");
    reveal_strlit("backspace");
    reveal_strlit("space");
    reveal_strlit("resize");
    reveal_strlit("interrupt");
    assert("char"@.len() == 4);
    assert("backspace"@.len() == 9);
    assert("space"@.len() == 5);
    assert("resize"@.len() == 6);
    assert("interrupt"@.len() == 9);
    assert("backspace"@[0] != "interrupt"@[0]);
}

impl EventKind {
    /// Whether the event is a key the user pressed to edit, as opposed to a
    /// resize or interrupt.
    pub fn is_keystroke(self) -> (r: bool)
        ensures
            r == keystroke_kind(self),
    {
        match self {
            EventKind::Char | EventKind::Backspace | EventKind::Space => true,
            _ => false,
        }
    }

    /// The kind's stable name, as stored with the event. Never renamed: a
    /// stored session must read back under any later version.
    pub fn name(self) -> (r: &'static str)
        ensures
            r@ == kind_name(self),
    {
        match self {
            EventKind::Char => "char",
            EventKind::Backspace => "backspace",
            EventKind::Space => "space",
            EventKind::Resize => "resize",
            EventKind::Interrupt => "interrupt",
        }
    }

    /// The kind with the given stored name, if this version knows it.
    pub fn from_name(name: &str) -> (r: Option<EventKind>)
        ensures
            r == kind_named(name@),
    {
        if str_equal(name, "char") {
            Some(EventKind::Char)
        } else if str_equal(name, "backspace") {
            Some(EventKind::Backspace)
        } else if str_equal(name, "space") {
            Some(EventKind::Space)
        } else if str_equal(name, "resize") {
            Some(EventKind::Resize)
        } else if str_equal(name, "interrupt") {
            Some(EventKind::Interrupt)
        } else {
            None
        }
    }
}

/// Quality flags recorded with an event so that the analysis can decide
/// which intervals carry motor evidence.
#[derive(Debug, Clone, Copy, PartialEq, Eq, Structural, Default)]
pub struct EventFlags {
    /// The keystroke that starts the session: the first printable character
    /// not pasted. Keystrokes before it are recorded but carry no timing
    /// flags.
    pub first_of_session: bool,
    /// The first keystroke after a terminal resize.
    pub after_resize: bool,
    /// Arrived inside a bracketed paste; recorded but never applied.
    pub in_paste: bool,
    /// Arrived after the first input of a batch read together.
    pub burst: bool,
    /// At least [`LONG_PAUSE_MICROS`] since the previous keystroke. A coarse
    /// capture-time marker; the analysis derives hesitations from
    /// timestamps.
    pub long_pause: bool,
}

/// The gap from the previous keystroke at which an event is flagged
/// `long_pause`: the floor of the hesitation threshold.
pub const LONG_PAUSE_MICROS: u64 = 1_500_000;

/// One recorded input, resolved against the prompt at the moment it
/// arrived: `word_index` and `position` are the caret before the event was
/// applied, `expected` the character the prompt wanted there (the following
/// space once the word is fully typed), `actual` the character the key
/// produced.
#[derive(Debug, Clone, Copy, PartialEq, Eq, Structural)]
pub struct InputEvent {
    pub seq: u32,
    pub at_micros: u64,
    pub kind: EventKind,
    /// `None` only for events that are not keystrokes.
    pub expected: Option<char>,
    /// `None` for backspace and for events that are not keystrokes.
    pub actual: Option<char>,
    pub word_index: usize,
    pub position: usize,
    pub flags: EventFlags,
}

/// A character event carries the character typed.
pub open spec fn event_replayable(e: InputEvent) -> bool {
    e.kind == EventKind::Char ==> e.actual is Some
}

/// The key an event was recorded from, as far as the editing rules can tell.
pub open spec fn key_of_event(e: InputEvent) -> Key {
    match e.kind {
        EventKind::Char => Key::Char(e.actual->0),
        EventKind::Space => Key::Char(' '),
        EventKind::Backspace => Key::Backspace,
        EventKind::Resize => Key::Resize,
        EventKind::Interrupt => Key::Interrupt,
    }
}

/// The input that replays an event.
pub open spec fn input_of_event(e: InputEvent) -> Input {
    Input {
        at_micros: e.at_micros,
        key: key_of_event(e),
        in_paste: e.flags.in_paste,
        burst: e.flags.burst,
    }
}

impl InputEvent {
    /// The input that produced this event, so that a stored event log can be
    /// applied again. The resolved fields and timing flags are dropped: the
    /// session derives them afresh.
    pub fn input(&self) -> (r: Input)
        requires
            event_replayable(*self),
        ensures
            r == input_of_event(*self),
    {
        let key = match self.kind {
            EventKind::Char => Key::Char(self.actual.unwrap()),
            EventKind::Space => Key::Char(' '),
            EventKind::Backspace => Key::Backspace,
            EventKind::Resize => Key::Resize,
            EventKind::Interrupt => Key::Interrupt,
        };
        Input {
            at_micros: self.at_micros,
            key,
            in_paste: self.flags.in_paste,
            burst: self.flags.burst,
        }
    }
}

} // verus!
