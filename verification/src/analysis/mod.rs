//! The session pipeline: from a finished session to what it says about the
//! user's typing.
//!
//! The analysis takes the finished [`SessionState`] (the prompt and the
//! ordered event log with the editing rules applied), reconstructs how
//! every word was typed, aligns each word's first attempt to its target to
//! attribute errors to patterns, classifies every keystroke's incoming
//! latency as clean motor evidence or not, and counts what the session's
//! metrics are computed from. Nothing here depends on a terminal or a
//! database.
//!
//! [`SessionState`]: crate::session::SessionState

pub mod alignment;
pub mod attempt;
pub mod intervals;
mod report;

pub use report::{
    analyze, analyze_with, attributed_pattern, counts_of, differences, differs_at, error_latency_micros, first_difference,
    intervals_of, pattern_of_edit, positions_differing, word_view, words_of, words_view, ErrorAttribution,
    ErrorView, SessionAnalysis, SessionCounts, WordAnalysis, WordView,
};

use vstd::prelude::*;

use crate::prompt::Slot;
use crate::session::EventKind;
use crate::text::{append, append_str, decimal, decimal_chars, string_of};

verus! {

/// One operation of the alignment from a word's first attempt to its
/// target. Slots are positions within the word; the position just past the
/// end is the space that follows it.
#[derive(Debug, Clone, Copy, PartialEq, Eq, Structural)]
pub enum Edit {
    /// A different character was typed at the slot.
    Substitution { slot: usize, actual: char },
    /// The characters at `slot - 1` and `slot` were typed in the other
    /// order; one error against two characters.
    Transposition { slot: usize },
    /// The slot's character was never typed.
    Omission { slot: usize },
    /// A character was typed that belongs to no slot, before the character
    /// at `slot`; at the word's length it is a trailing extra.
    Insertion { slot: usize, actual: char },
}

/// The slot an error is attributed to.
pub open spec fn edit_slot(edit: Edit) -> usize {
    match edit {
        Edit::Substitution { slot, .. } => slot,
        Edit::Transposition { slot } => slot,
        Edit::Omission { slot } => slot,
        Edit::Insertion { slot, .. } => slot,
    }
}

impl Edit {
    /// The slot the error is attributed to.
    pub fn slot(self) -> (r: usize)
        ensures
            r == edit_slot(self),
    {
        match self {
            Edit::Substitution { slot, .. } => slot,
            Edit::Transposition { slot } => slot,
            Edit::Omission { slot } => slot,
            Edit::Insertion { slot, .. } => slot,
        }
    }

    /// The edit as it is shown: what happened and at which slot.
    pub fn text(self) -> (r: String)
        requires
            self matches Edit::Transposition { slot } ==> slot >= 1,
        ensures
            r@ == edit_text(self),
    {
        let mut out: Vec<char> = Vec::new();
        match self {
            Edit::Substitution { slot, actual } => {
                append_str(&mut out, "substitution ");
                out.push(actual);
                append_str(&mut out, " at ");
                append(&mut out, decimal_chars(slot).as_slice());
            },
            Edit::Transposition { slot } => {
                append_str(&mut out, "transposition at ");
                append(&mut out, decimal_chars(slot - 1).as_slice());
                out.push('-');
                append(&mut out, decimal_chars(slot).as_slice());
            },
            Edit::Omission { slot } => {
                append_str(&mut out, "omission at ");
                append(&mut out, decimal_chars(slot).as_slice());
            },
            Edit::Insertion { slot, actual } => {
                append_str(&mut out, "insertion ");
                out.push(actual);
                append_str(&mut out, " before ");
                append(&mut out, decimal_chars(slot).as_slice());
            },
        }
        assert(out@ =~= edit_text(self));
        string_of(out.as_slice())
    }
}

/// How an edit is shown.
pub open spec fn edit_text(edit: Edit) -> Seq<char> {
    match edit {
        Edit::Substitution { slot, actual } => "substitution "@ + seq![actual] + " at "@ + decimal(slot as nat),
        Edit::Transposition { slot } => "transposition at "@ + decimal((slot - 1) as nat) + seq!['-'] + decimal(
            slot as nat,
        ),
        Edit::Omission { slot } => "omission at "@ + decimal(slot as nat),
        Edit::Insertion { slot, actual } => "insertion "@ + seq![actual] + " before "@ + decimal(slot as nat),
    }
}

/// Why an interval carries no motor evidence.
#[derive(Debug, Clone, Copy, PartialEq, Eq, Structural)]
pub enum Exclusion {
    FirstOfSession,
    Backspace,
    /// A keystroke that retyped an attempted position or followed re-entry.
    Replacement,
    /// The keystroke right after a backspace or replacement.
    AfterCorrection,
    /// After an error left uncorrected in the same word.
    FollowingError,
    AfterResize,
    InPaste,
    Burst,
    /// The editing rules ignored the keystroke: a space at a word start or
    /// an extra past the cap.
    Ignored,
}

/// The name each exclusion is shown under.
pub open spec fn exclusion_name(reason: Exclusion) -> Seq<char> {
    match reason {
        Exclusion::FirstOfSession => "first_of_session"@,
        Exclusion::Backspace => "backspace"@,
        Exclusion::Replacement => "replacement"@,
        Exclusion::AfterCorrection => "after_correction"@,
        Exclusion::FollowingError => "following_error"@,
        Exclusion::AfterResize => "after_resize"@,
        Exclusion::InPaste => "in_paste"@,
        Exclusion::Burst => "burst"@,
        Exclusion::Ignored => "ignored"@,
    }
}

impl Exclusion {
    /// The reason's name as shown to a developer.
    pub fn name(self) -> (r: &'static str)
        ensures
            r@ == exclusion_name(self),
    {
        match self {
            Exclusion::FirstOfSession => "first_of_session",
            Exclusion::Backspace => "backspace",
            Exclusion::Replacement => "replacement",
            Exclusion::AfterCorrection => "after_correction",
            Exclusion::FollowingError => "following_error",
            Exclusion::AfterResize => "after_resize",
            Exclusion::InPaste => "in_paste",
            Exclusion::Burst => "burst",
            Exclusion::Ignored => "ignored",
        }
    }
}

/// Whether an interval carries motor evidence.
#[derive(Debug, Clone, PartialEq, Eq)]
pub enum IntervalClass {
    Clean,
    /// Over the hesitation threshold in force at the time; recorded on the
    /// pattern as a hesitation rather than a latency.
    Hesitation { threshold_micros: u64 },
    /// Excluded for every listed reason.
    Excluded(Vec<Exclusion>),
}

/// One keystroke's incoming latency and whether it carries motor evidence.
#[derive(Debug, Clone, PartialEq, Eq)]
pub struct Interval {
    /// The keystroke's event sequence number.
    pub seq: u32,
    /// When the keystroke arrived, microseconds from raw-mode entry.
    pub at_micros: u64,
    pub kind: EventKind,
    /// The slot the keystroke was for; extras past a word's end belong to
    /// the following space.
    pub slot: Slot,
    /// The pattern ending at the slot: where a clean latency or a
    /// hesitation is recorded.
    pub pattern: String,
    pub actual: Option<char>,
    /// Microseconds since the previous keystroke; `None` for the first of
    /// the session.
    pub latency_micros: Option<u64>,
    pub class: IntervalClass,
}

/// Where the hesitation threshold comes from. It is never below 1.5 s and
/// otherwise four times a typical clean latency.
#[derive(Debug, Clone, Copy, PartialEq, Eq, Structural)]
pub enum HesitationThreshold {
    /// Four times the running median of the session's own clean latencies
    /// so far; the floor alone until one exists.
    RunningMedian,
    /// Four times the user baseline, given as the typical clean latency in
    /// microseconds, fixed for the whole session.
    UserBaseline(u64),
}

/// The middle value of a sorted list, or the mean of the two middle ones
/// rounded down; `None` for an empty list.
pub open spec fn median_of(sorted: Seq<u64>) -> Option<int> {
    let n = sorted.len() as int;
    if n == 0 {
        None
    } else if n % 2 == 1 {
        Some(sorted[n / 2] as int)
    } else {
        Some((sorted[n / 2 - 1] + sorted[n / 2]) / 2)
    }
}

/// The middle value of a sorted list, or between the two middle ones.
pub fn median(sorted: &[u64]) -> (r: Option<u64>)
    ensures
        match r {
            Some(m) => median_of(sorted@) == Some(m as int),
            None => median_of(sorted@) is None,
        },
{
    let n = sorted.len();
    if n == 0 {
        return None;
    }
    if n % 2 == 1 {
        Some(sorted[n / 2])
    } else {
        let a = sorted[n / 2 - 1];
        let b = sorted[n / 2];
        let m = (a as u128 + b as u128) / 2;
        Some(m as u64)
    }
}

} // verus!
