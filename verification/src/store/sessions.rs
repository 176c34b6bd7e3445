//! Sessions read back from the store, and the events checked as they are
//! read.

use vstd::prelude::*;

use crate::prompt::Prompt;
use crate::session::{
    event_replayable, initial, inputs_of, kind_named, run, EndCondition, EventFlags, EventKind,
    InputEvent, Outcome, SessionState,
};
use crate::text::{append, append_debug, append_str, chars_of, debug_str, decimal, decimal_chars, is_digit, string_of};

verus! {

/// A session's row id, the handle a user names a stored session by.
#[derive(Debug, Clone, Copy, PartialEq, Eq, Structural, Hash, PartialOrd, Ord)]
pub struct SessionId(i64);

impl View for SessionId {
    type V = i64;

    closed spec fn view(&self) -> i64 {
        self.0
    }
}

/// The number a signed decimal text stands for, if it is one that fits an
/// `i64`: an optional sign, then one digit or more.
pub open spec fn signed_value(text: Seq<char>) -> Option<i64> {
    let negative = text.len() > 0 && text[0] == '-';
    let digits = if text.len() > 0 && (text[0] == '-' || text[0] == '+') { text.drop_first() } else { text };
    if digits.len() == 0 || !all_digits(digits) {
        None
    } else {
        let m = magnitude(digits, digits.len() as int);
        if negative {
            if m <= 0x8000_0000_0000_0000 {
                Some((0 - m) as i64)
            } else {
                None
            }
        } else if m <= i64::MAX {
            Some(m as i64)
        } else {
            None
        }
    }
}

/// Every character is a decimal digit.
pub open spec fn all_digits(s: Seq<char>) -> bool {
    forall|i: int| 0 <= i < s.len() ==> is_digit(#[trigger] s[i])
}

/// The value of the first `n` decimal digits.
pub open spec fn magnitude(digits: Seq<char>, n: int) -> int
    decreases n,
{
    if n <= 0 {
        0
    } else {
        magnitude(digits, n - 1) * 10 + crate::text::digit_value(digits[n - 1])
    }
}

proof fn lemma_magnitude_grows(digits: Seq<char>, n: int, m: int)
    requires
        0 <= n <= m <= digits.len(),
        forall|i: int| 0 <= i < digits.len() ==> is_digit(#[trigger] digits[i]),
    ensures
        magnitude(digits, n) <= magnitude(digits, m),
        magnitude(digits, n) >= 0,
    decreases m - n,
{
    if m > n {
        lemma_magnitude_grows(digits, n, m - 1);
        lemma_magnitude_nonnegative(digits, m - 1);
    } else {
        lemma_magnitude_nonnegative(digits, n);
    }
}

proof fn lemma_magnitude_nonnegative(digits: Seq<char>, n: int)
    requires
        0 <= n <= digits.len(),
        forall|i: int| 0 <= i < digits.len() ==> is_digit(#[trigger] digits[i]),
    ensures
        magnitude(digits, n) >= 0,
    decreases n,
{
    if n > 0 {
        lemma_magnitude_nonnegative(digits, n - 1);
    }
}

/// The magnitude of digits looks only at the digits it reads.
proof fn lemma_magnitude_prefix(digits: Seq<char>, more: Seq<char>, n: int)
    requires
        0 <= n <= digits.len(),
    ensures
        magnitude(digits + more, n) == magnitude(digits, n),
    decreases n,
{
    if n > 0 {
        lemma_magnitude_prefix(digits, more, n - 1);
        assert((digits + more)[n - 1] == digits[n - 1]);
    }
}

/// A number's decimal digits are digits, and their magnitude is the
/// number.
proof fn lemma_magnitude_of_decimal(n: nat)
    ensures
        decimal(n).len() >= 1,
        all_digits(decimal(n)),
        magnitude(decimal(n), decimal(n).len() as int) == n,
    decreases n,
{
    let d = (n % 10) as int;
    let c = crate::text::digit_char(d);
    assert(is_digit(c) && crate::text::digit_value(c) == d);
    let s = decimal(n);
    if n >= 10 {
        let head = decimal(n / 10);
        lemma_magnitude_of_decimal(n / 10);
        assert(s == head.push(c));
        assert(head + seq![c] =~= s);
        lemma_magnitude_prefix(head, seq![c], head.len() as int);
        assert(all_digits(s)) by {
            assert forall|i: int| 0 <= i < s.len() implies is_digit(#[trigger] s[i]) by {
                if i < head.len() {
                    assert(s[i] == head[i]);
                }
            }
        }
        assert((n / 10) * 10 + d == n) by (nonlinear_arith)
            requires
                d == n % 10,
        ;
    } else {
        assert(d == n);
        assert(s == seq![c]);
        assert(magnitude(s, 0) == 0);
    }
}

/// A session id written in decimal, as `Display` writes it, parses back as
/// the same id.
pub proof fn lemma_session_id_round_trip(id: i64)
    ensures
        signed_value(signed_decimal(id as int)) == Some(id),
{
    let text = signed_decimal(id as int);
    if id < 0 {
        let m = (0 - id) as nat;
        lemma_magnitude_of_decimal(m);
        assert(text.drop_first() =~= decimal(m));
        assert(text[0] == '-');
    } else {
        lemma_magnitude_of_decimal(id as nat);
        let d = decimal(id as nat);
        assert(is_digit(d[0]));
    }
}

impl SessionId {
    /// The id a row holds.
    pub fn from_raw(raw: i64) -> (r: SessionId)
        ensures
            r@ == raw,
    {
        SessionId(raw)
    }

    /// The id as it is shown to the user: the row id in decimal.
    pub fn text(self) -> (r: String)
        ensures
            r@ == signed_decimal(self@ as int),
            signed_value(r@) == Some(self@),
    {
        proof {
            lemma_session_id_round_trip(self.0);
        }
        let digits = signed_decimal_chars(self.0);
        string_of(digits.as_slice())
    }

    /// The row id.
    pub fn raw(self) -> (r: i64)
        ensures
            r == self@,
    {
        self.0
    }

    /// The id a user wrote, if it is a whole number that fits.
    pub fn parse(text: &str) -> (r: Option<SessionId>)
        ensures
            match r {
                Some(id) => signed_value(text@) == Some(id@),
                None => signed_value(text@) is None,
            },
    {
        let chars = chars_of(text);
        let n = chars.len();
        let negative = n > 0 && chars[0] == '-';
        let start: usize = if n > 0 && (chars[0] == '-' || chars[0] == '+') { 1 } else { 0 };
        let ghost digits = chars@.subrange(start as int, n as int);
        assert(digits =~= (if text@.len() > 0 && (text@[0] == '-' || text@[0] == '+') {
            text@.drop_first()
        } else {
            text@
        }));
        if start >= n {
            return None;
        }
        let mut value: u64 = 0;
        let mut k: usize = start;
        while k < n
            invariant
                start <= k <= n,
                n == chars@.len(),
                digits == chars@.subrange(start as int, n as int),
                digits == (if text@.len() > 0 && (text@[0] == '-' || text@[0] == '+') {
                    text@.drop_first()
                } else {
                    text@
                }),
                forall|i: int| 0 <= i < k - start ==> is_digit(#[trigger] digits[i]),
                value == magnitude(digits, k - start),
                value <= 0x8000_0000_0000_0000,
            decreases n - k,
        {
            let c = chars[k];
            assert(digits[k - start] == c);
            if !('0' <= c && c <= '9') {
                assert(!is_digit(digits[k - start]));
                assert(k - start < digits.len());
                assert(!all_digits(digits));
                return None;
            }
            let d = (c as u32 - '0' as u32) as u64;
            assert(d == crate::text::digit_value(c));
            assert(magnitude(digits, k - start + 1) == value * 10 + d);
            if value > (0x8000_0000_0000_0000u64 - d) / 10 {
                proof {
                    assert(value * 10 + d > 0x8000_0000_0000_0000) by (nonlinear_arith)
                        requires
                            value > (0x8000_0000_0000_0000u64 - d) / 10,
                            d <= 9,
                    ;
                    assert forall|i: int| 0 <= i < k - start + 1 implies is_digit(#[trigger] digits[i]) by {}
                    if all_digits(digits) {
                        lemma_magnitude_grows(digits, k - start + 1, digits.len() as int);
                    }
                }
                return None;
            }
            assert(value * 10 + d <= 0x8000_0000_0000_0000) by (nonlinear_arith)
                requires
                    value <= (0x8000_0000_0000_0000u64 - d) / 10,
                    d <= 9,
            ;
            value = value * 10 + d;
            k += 1;
        }
        if negative {
            if value == 0x8000_0000_0000_0000 {
                Some(SessionId(i64::MIN))
            } else {
                Some(SessionId(0 - (value as i64)))
            }
        } else if value <= i64::MAX as u64 {
            Some(SessionId(value as i64))
        } else {
            None
        }
    }
}

/// What is known about a session before it runs.
#[derive(Debug, Clone, Copy, PartialEq, Eq, Structural)]
pub struct SessionStart {
    /// Wall clock, Unix seconds.
    pub started_at: i64,
    /// Seeds the randomness drawn at this session's end when the next
    /// prompt is composed.
    pub seed: u64,
    /// How many words the session is to have: the profile's setting, or an
    /// override for this session alone. A prompt composed ahead with
    /// another length is not shown.
    pub word_count: usize,
}

/// A session whose row exists and whose prompt is ready to be typed.
#[derive(Debug, Clone, PartialEq, Eq)]
pub struct StartedSession {
    pub id: SessionId,
    pub prompt: Prompt,
}

/// A session read back from the database.
#[derive(Debug, Clone, PartialEq, Eq)]
pub struct StoredSession {
    pub id: SessionId,
    pub profile_id: i64,
    /// Wall clock, Unix seconds.
    pub started_at: i64,
    /// `started_at` in the local time zone as `YYYY-MM-DD HH:MM`.
    pub started_at_local: String,
    /// `None` while the session runs, and forever if the process died in
    /// it.
    pub ended_at: Option<i64>,
    /// `Interrupted` until the session ends, and for a session the process
    /// died in.
    pub outcome: Outcome,
    /// The editing rules the events were captured under.
    pub semantics_version: u32,
    pub prompt: Prompt,
    pub events: Vec<InputEvent>,
}

impl StoredSession {
    /// The state the session ended in, rebuilt from its events under the
    /// current editing rules; identical to the live state when
    /// `semantics_version` is the current one.
    pub fn replay(&self) -> (s: SessionState)
        requires
            self.prompt.wf(),
            self.events@.len() <= u32::MAX,
            forall|i: int| 0 <= i < self.events@.len() ==> event_replayable(#[trigger] self.events@[i]),
        ensures
            s.wf(),
            s@ == run(
                initial(self.prompt@, EndCondition::AfterWords(self.prompt@.len() as usize)),
                inputs_of(self.events@),
            ),
    {
        let prompt = self.prompt.duplicate();
        let words = self.prompt.word_count();
        SessionState::replay(prompt, EndCondition::AfterWords(words), self.events.as_slice())
    }
}

// --- Events as read ---------------------------------------------------------------

/// A row that cannot be interpreted.
#[derive(Debug, Clone, PartialEq, Eq)]
pub struct Corrupt(pub String);

/// A number written in decimal, with a minus sign when negative.
pub open spec fn signed_decimal(n: int) -> Seq<char> {
    if n < 0 {
        seq!['-'] + decimal((0 - n) as nat)
    } else {
        decimal(n as nat)
    }
}

/// A signed number written in decimal, as characters.
fn signed_decimal_chars(n: i64) -> (r: Vec<char>)
    ensures
        r@ == signed_decimal(n as int),
{
    if n < 0 {
        let magnitude: u64 = if n == i64::MIN { 0x8000_0000_0000_0000 } else { (0 - n) as u64 };
        let mut out: Vec<char> = Vec::new();
        out.push('-');
        let digits = decimal_u64_chars(magnitude);
        append(&mut out, digits.as_slice());
        out
    } else {
        decimal_u64_chars(n as u64)
    }
}

/// A `u64` written in decimal, as characters.
fn decimal_u64_chars(n: u64) -> (r: Vec<char>)
    ensures
        r@ == decimal(n as nat),
    decreases n,
{
    let d = (n % 10) as usize;
    let last = decimal_chars(d);
    assert(last@ == decimal(d as nat));
    if n < 10 {
        last
    } else {
        let mut v = decimal_u64_chars(n / 10);
        assert(last@ == seq![crate::text::digit_char(d as int)]);
        v.push(last[0]);
        v
    }
}

/// The text a column holds, if any.
pub open spec fn text_of(o: Option<&str>) -> Option<Seq<char>> {
    match o {
        Some(t) => Some(t@),
        None => None,
    }
}

/// The one character a column holds, if it holds text; text that is not
/// one character cannot be read.
pub open spec fn single_char_of(text: Option<Seq<char>>) -> Result<Option<char>, Seq<char>> {
    match text {
        None => Ok(None),
        Some(s) => if s.len() == 1 {
            Ok(Some(s[0]))
        } else {
            Err("event character column holds "@ + debug_str(s) + ", not one character"@)
        },
    }
}

/// A column's one character.
fn single_char(text: Option<&str>) -> (r: Result<Option<char>, Corrupt>)
    ensures
        match r {
            Ok(c) => single_char_of(text_of(text)) == Ok::<Option<char>, Seq<char>>(c),
            Err(e) => single_char_of(text_of(text)) == Err::<Option<char>, Seq<char>>(e.0@),
        },
{
    match text {
        None => Ok(None),
        Some(t) => {
            let chars = chars_of(t);
            if chars.len() == 1 {
                Ok(Some(chars[0]))
            } else {
                let mut out: Vec<char> = Vec::new();
                append_str(&mut out, "event character column holds ");
                append_debug(&mut out, chars.as_slice());
                append_str(&mut out, ", not one character");
                assert(out@ =~= "event character column holds "@ + debug_str(t@) + ", not one character"@);
                Err(Corrupt(string_of(out.as_slice())))
            }
        },
    }
}

/// An event as its row holds it, before it is checked.
pub struct EventRow<'a> {
    pub seq: u32,
    pub at_micros: i64,
    pub kind: &'a str,
    pub expected: Option<&'a str>,
    pub actual: Option<&'a str>,
    pub word_index: i64,
    pub position: i64,
    pub flags: EventFlags,
}

/// A negative column, as the message names it.
pub open spec fn negative_message(column: Seq<char>, value: i64) -> Seq<char> {
    column + " "@ + signed_decimal(value as int) + " is negative"@
}

/// The event a row holds, or what is wrong with the row, checked in the
/// order the row is read: the kind, the typed character, a character
/// event without one, the arrival time, the expected character, the word,
/// and the position.
pub open spec fn event_of_row(
    session: i64,
    seq: u32,
    at_micros: i64,
    kind: Seq<char>,
    expected: Option<Seq<char>>,
    actual: Option<Seq<char>>,
    word_index: i64,
    position: i64,
    flags: EventFlags,
) -> Result<InputEvent, Seq<char>> {
    match kind_named(kind) {
        None => Err("unknown event kind "@ + debug_str(kind)),
        Some(k) => match single_char_of(actual) {
            Err(m) => Err(m),
            Ok(a) => if k == EventKind::Char && a is None {
                Err(
                    "event "@ + decimal(seq as nat) + " of session "@ + signed_decimal(session as int)
                        + " is a char with no character"@,
                )
            } else if at_micros < 0 {
                Err(negative_message("at_micros"@, at_micros))
            } else {
                match single_char_of(expected) {
                    Err(m) => Err(m),
                    Ok(e) => if word_index < 0 || word_index > usize::MAX {
                        Err(negative_message("word_index"@, word_index))
                    } else if position < 0 || position > usize::MAX {
                        Err(negative_message("position"@, position))
                    } else {
                        Ok(
                            InputEvent {
                                seq,
                                at_micros: at_micros as u64,
                                kind: k,
                                expected: e,
                                actual: a,
                                word_index: word_index as usize,
                                position: position as usize,
                                flags,
                            },
                        )
                    },
                }
            },
        },
    }
}

/// The message for a negative column.
fn negative(column: &str, value: i64) -> (r: Corrupt)
    ensures
        r.0@ == negative_message(column@, value),
{
    let mut out: Vec<char> = Vec::new();
    append_str(&mut out, column);
    append_str(&mut out, " ");
    let digits = signed_decimal_chars(value);
    append(&mut out, digits.as_slice());
    append_str(&mut out, " is negative");
    Corrupt(string_of(out.as_slice()))
}

/// A column as an index, if it fits one.
fn as_index(value: i64) -> (r: Option<usize>)
    ensures
        match r {
            Some(i) => 0 <= value <= usize::MAX && i == value,
            None => value < 0 || value > usize::MAX,
        },
{
    if value < 0 {
        return None;
    }
    let v = value as u64;
    if v > usize::MAX as u64 {
        None
    } else {
        Some(v as usize)
    }
}

/// An index column, which can only be a position: the value where it fits
/// one, else the message that names the column.
pub fn index(value: i64, column: &str) -> (r: Result<usize, Corrupt>)
    ensures
        match r {
            Ok(i) => 0 <= value <= usize::MAX && i == value,
            Err(e) => (value < 0 || value > usize::MAX) && e.0@ == negative_message(column@, value),
        },
{
    match as_index(value) {
        Some(i) => Ok(i),
        None => Err(negative(column, value)),
    }
}

/// A column that can only be non-negative: the value, or the message that
/// names the column.
pub fn non_negative(value: i64, column: &str) -> (r: Result<u64, Corrupt>)
    ensures
        match r {
            Ok(n) => 0 <= value && n == value,
            Err(e) => value < 0 && e.0@ == negative_message(column@, value),
        },
{
    if value < 0 {
        Err(negative(column, value))
    } else {
        Ok(value as u64)
    }
}

/// Reads one stored event of a session, or says what is wrong with it.
pub fn event_from_row(session: SessionId, row: &EventRow) -> (r: Result<InputEvent, Corrupt>)
    ensures
        match r {
            Ok(e) => event_of_row(
                session@,
                row.seq,
                row.at_micros,
                row.kind@,
                text_of(row.expected),
                text_of(row.actual),
                row.word_index,
                row.position,
                row.flags,
            ) == Ok::<InputEvent, Seq<char>>(e),
            Err(c) => event_of_row(
                session@,
                row.seq,
                row.at_micros,
                row.kind@,
                text_of(row.expected),
                text_of(row.actual),
                row.word_index,
                row.position,
                row.flags,
            ) == Err::<InputEvent, Seq<char>>(c.0@),
        },
{
    let kind = match EventKind::from_name(row.kind) {
        Some(k) => k,
        None => {
            let mut out: Vec<char> = Vec::new();
            append_str(&mut out, "unknown event kind ");
            let chars = chars_of(row.kind);
            append_debug(&mut out, chars.as_slice());
            assert(out@ =~= "unknown event kind "@ + debug_str(row.kind@));
            return Err(Corrupt(string_of(out.as_slice())));
        },
    };
    let actual = match single_char(row.actual) {
        Ok(a) => a,
        Err(e) => {
            return Err(e);
        },
    };
    if kind == EventKind::Char && actual.is_none() {
        let mut out: Vec<char> = Vec::new();
        append_str(&mut out, "event ");
        let seq = decimal_u64_chars(row.seq as u64);
        append(&mut out, seq.as_slice());
        append_str(&mut out, " of session ");
        let id = signed_decimal_chars(session.raw());
        append(&mut out, id.as_slice());
        append_str(&mut out, " is a char with no character");
        assert(out@ =~= "event "@ + decimal(row.seq as nat) + " of session "@ + signed_decimal(session@ as int)
            + " is a char with no character"@);
        return Err(Corrupt(string_of(out.as_slice())));
    }
    let at_micros = match non_negative(row.at_micros, "at_micros") {
        Ok(t) => t,
        Err(e) => {
            return Err(e);
        },
    };
    let expected = match single_char(row.expected) {
        Ok(e) => e,
        Err(e) => {
            return Err(e);
        },
    };
    let word_index = match index(row.word_index, "word_index") {
        Ok(i) => i,
        Err(e) => {
            return Err(e);
        },
    };
    let position = match index(row.position, "position") {
        Ok(p) => p,
        Err(e) => {
            return Err(e);
        },
    };
    Ok(
        InputEvent {
            seq: row.seq,
            at_micros,
            kind,
            expected,
            actual,
            word_index,
            position,
            flags: row.flags,
        },
    )
}

} // verus!
