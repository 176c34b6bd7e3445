//! Settings a profile keeps between runs: the session length, and what a
//! profile may be named.

use vstd::prelude::*;

use crate::corpus::{count_value, lemma_count_value_of_decimal, parse_count};
use crate::display::{blink_name_of, blink_named, shape_name, shape_named, CursorShape, CursorStyle};
use crate::layout::{layout_name, layout_named, qwerty, Layout};
use crate::store::sessions::Corrupt;
use crate::store::{Profile, ProfileView};
use crate::text::{append_debug, append_str, chars_of, debug_str, decimal, decimal_chars, string_of};

verus! {

/// Words per session unless the profile says otherwise.
pub const DEFAULT_WORDS: usize = 50;

/// The fewest words a session may be set to.
pub const WORDS_MIN: usize = 10;

/// The most words a session may be set to.
pub const WORDS_MAX: usize = 200;

/// A setting given a value it cannot take; the message is complete on its
/// own.
#[derive(Debug, Clone, PartialEq, Eq)]
pub struct InvalidSetting(pub String);

/// A session length as text reads as: a whole number within the range.
pub open spec fn words_of_text(text: Seq<char>) -> Option<usize> {
    match count_value(text) {
        Ok(n) => if WORDS_MIN <= n && n <= WORDS_MAX {
            Some(n as usize)
        } else {
            None
        },
        Err(_) => None,
    }
}

/// What a session length must be, as the user is told.
pub open spec fn words_requirement() -> Seq<char> {
    "words must be a number from "@ + decimal(WORDS_MIN as nat) + " to "@ + decimal(WORDS_MAX as nat)
}

/// A session length read from text, if it is one.
pub fn words_in_range(text: &str) -> (r: Option<usize>)
    ensures
        r == words_of_text(text@),
{
    let chars = chars_of(text);
    match parse_count(chars.as_slice()) {
        Ok(n) => if WORDS_MIN as u64 <= n && n <= WORDS_MAX as u64 {
            Some(n as usize)
        } else {
            None
        },
        Err(_) => None,
    }
}

/// Parses a session length as the user typed it: a whole number within the
/// range, or a message saying what it must be.
pub fn parse_words(text: &str) -> (r: Result<usize, InvalidSetting>)
    ensures
        match r {
            Ok(n) => words_of_text(text@) == Some(n),
            Err(e) => words_of_text(text@) is None && e.0@ == words_requirement() + ", not "@ + debug_str(text@),
        },
{
    match words_in_range(text) {
        Some(n) => Ok(n),
        None => {
            let mut out: Vec<char> = Vec::new();
            append_str(&mut out, "words must be a number from ");
            let low = decimal_chars(WORDS_MIN);
            crate::text::append(&mut out, low.as_slice());
            append_str(&mut out, " to ");
            let high = decimal_chars(WORDS_MAX);
            crate::text::append(&mut out, high.as_slice());
            append_str(&mut out, ", not ");
            let chars = chars_of(text);
            append_debug(&mut out, chars.as_slice());
            assert(out@ =~= words_requirement() + ", not "@ + debug_str(text@));
            Err(InvalidSetting(string_of(out.as_slice())))
        },
    }
}

/// A character a profile name may hold: an ASCII letter or digit, `.`,
/// `-`, or `_`.
pub open spec fn name_char(c: char) -> bool {
    ('a' <= c && c <= 'z') || ('A' <= c && c <= 'Z') || ('0' <= c && c <= '9') || c == '.' || c == '-' || c
        == '_'
}

/// A profile name is a plain word: not empty, and only name characters.
pub open spec fn valid_profile_name(name: Seq<char>) -> bool {
    name.len() > 0 && forall|i: int| 0 <= i < name.len() ==> name_char(#[trigger] name[i])
}

/// What a profile name must be, as the user is told.
pub open spec fn profile_name_message(name: Seq<char>) -> Seq<char> {
    "profile names use letters, digits, \".\", \"-\" and \"_\", not "@ + debug_str(name)
}

/// Checks a profile name: plain words only, or a message saying so.
pub fn check_profile_name(name: &str) -> (r: Result<(), InvalidSetting>)
    ensures
        match r {
            Ok(()) => valid_profile_name(name@),
            Err(e) => !valid_profile_name(name@) && e.0@ == profile_name_message(name@),
        },
{
    let chars = chars_of(name);
    let mut ok = chars.len() > 0;
    let mut k: usize = 0;
    while k < chars.len()
        invariant
            k <= chars@.len(),
            chars@ == name@,
            ok == (chars@.len() > 0 && forall|i: int| 0 <= i < k ==> name_char(#[trigger] chars@[i])),
        decreases chars@.len() - k,
    {
        let c = chars[k];
        let allowed = ('a' <= c && c <= 'z') || ('A' <= c && c <= 'Z') || ('0' <= c && c <= '9') || c == '.'
            || c == '-' || c == '_';
        proof {
            if ok && allowed {
                assert forall|i: int| 0 <= i < k + 1 implies name_char(#[trigger] chars@[i]) by {
                    if i == k {
                        assert(chars@[i] == c);
                    }
                }
            }
        }
        ok = ok && allowed;
        k += 1;
    }
    if ok {
        Ok(())
    } else {
        let mut out: Vec<char> = Vec::new();
        append_str(&mut out, "profile names use letters, digits, \".\", \"-\" and \"_\", not ");
        append_debug(&mut out, chars.as_slice());
        assert(out@ =~= profile_name_message(name@));
        Err(InvalidSetting(string_of(out.as_slice())))
    }
}

/// The text a session length is stored as: the number in decimal, if it is
/// one a profile may be set to; otherwise the message saying what it must
/// be, and nothing is stored.
pub fn words_value(words: usize) -> (r: Result<String, InvalidSetting>)
    ensures
        match r {
            Ok(t) => WORDS_MIN <= words <= WORDS_MAX && t@ == decimal(words as nat) && words_of_text(t@)
                == Some(words),
            Err(e) => !(WORDS_MIN <= words <= WORDS_MAX) && e.0@ == words_requirement() + ", not "@
                + decimal(words as nat),
        },
{
    let digits = decimal_chars(words);
    if WORDS_MIN <= words && words <= WORDS_MAX {
        proof {
            lemma_words_round_trip(words);
        }
        Ok(string_of(digits.as_slice()))
    } else {
        let mut out: Vec<char> = Vec::new();
        append_str(&mut out, "words must be a number from ");
        let low = decimal_chars(WORDS_MIN);
        crate::text::append(&mut out, low.as_slice());
        append_str(&mut out, " to ");
        let high = decimal_chars(WORDS_MAX);
        crate::text::append(&mut out, high.as_slice());
        append_str(&mut out, ", not ");
        crate::text::append(&mut out, digits.as_slice());
        assert(out@ =~= words_requirement() + ", not "@ + decimal(words as nat));
        Err(InvalidSetting(string_of(out.as_slice())))
    }
}

/// A session length that may be stored reads back as itself.
pub proof fn lemma_words_round_trip(words: usize)
    requires
        WORDS_MIN <= words <= WORDS_MAX,
    ensures
        words_of_text(decimal(words as nat)) == Some(words),
{
    lemma_count_value_of_decimal(words as u64);
}

// --- Cursor, session length, and layout as stored ---------------------------------------

/// The cursor shapes by name, as the user is told them.
pub open spec fn shapes_listed() -> Seq<char> {
    shape_name(CursorShape::Block) + ", "@ + shape_name(CursorShape::Beam) + ", "@ + shape_name(
        CursorShape::Underline,
    )
}

/// What setting the cursor's shape stores: the shape's name, or the message
/// refusing an unknown one.
pub open spec fn cursor_shape_setting(shape: Seq<char>) -> Result<Seq<char>, Seq<char>> {
    match shape_named(shape) {
        Some(s) => Ok(shape_name(s)),
        None => Err("unknown cursor shape "@ + debug_str(shape) + "; the shapes are "@ + shapes_listed()),
    }
}

/// The value the cursor shape setting stores, from a shape's name; an
/// unknown name is refused and nothing changes.
pub fn cursor_shape_value(shape: &str) -> (r: Result<&'static str, InvalidSetting>)
    ensures
        match r {
            Ok(v) => cursor_shape_setting(shape@) == Ok::<Seq<char>, Seq<char>>(v@),
            Err(e) => cursor_shape_setting(shape@) == Err::<Seq<char>, Seq<char>>(e.0@),
        },
{
    match CursorShape::from_name(shape) {
        Some(s) => Ok(s.name()),
        None => {
            let mut out: Vec<char> = Vec::new();
            append_str(&mut out, "unknown cursor shape ");
            let chars = chars_of(shape);
            append_debug(&mut out, chars.as_slice());
            append_str(&mut out, "; the shapes are ");
            let known = CursorShape::all();
            let mut k: usize = 0;
            while k < known.len()
                invariant
                    known@ == seq![CursorShape::Block, CursorShape::Beam, CursorShape::Underline],
                    k <= 3,
                    out@ == "unknown cursor shape "@ + debug_str(shape@) + "; the shapes are "@ + listed_upto(
                        k as int,
                    ),
                decreases 3 - k,
            {
                if k > 0 {
                    append_str(&mut out, ", ");
                }
                append_str(&mut out, known[k].name());
                proof {
                    assert(out@ =~= "unknown cursor shape "@ + debug_str(shape@) + "; the shapes are "@
                        + listed_upto(k + 1));
                }
                k += 1;
            }
            assert(listed_upto(1) == shape_name(CursorShape::Block));
            assert(listed_upto(2) == shape_name(CursorShape::Block) + ", "@ + shape_name(CursorShape::Beam));
            assert(listed_upto(3) =~= shapes_listed());
            Err(InvalidSetting(string_of(out.as_slice())))
        },
    }
}

/// The names of the first `k` cursor shapes, separated by commas.
pub open spec fn listed_upto(k: int) -> Seq<char>
    decreases k,
{
    let shapes = seq![CursorShape::Block, CursorShape::Beam, CursorShape::Underline];
    if k <= 0 {
        seq![]
    } else if k == 1 {
        shape_name(shapes[0])
    } else {
        listed_upto(k - 1) + ", "@ + shape_name(shapes[k - 1])
    }
}

/// What setting the cursor's blink stores: `on` or `off`, or the message
/// refusing anything else.
pub open spec fn cursor_blink_setting(blink: Seq<char>) -> Result<Seq<char>, Seq<char>> {
    match blink_named(blink) {
        Some(b) => Ok(blink_name_of(b)),
        None => Err(
            "cursor blink is "@ + blink_name_of(true) + " or "@ + blink_name_of(false) + ", not "@ + debug_str(
                blink,
            ),
        ),
    }
}

/// The value the cursor blink setting stores, from `on` or `off`; anything
/// else is refused and nothing changes.
pub fn cursor_blink_value(blink: &str) -> (r: Result<&'static str, InvalidSetting>)
    ensures
        match r {
            Ok(v) => cursor_blink_setting(blink@) == Ok::<Seq<char>, Seq<char>>(v@),
            Err(e) => cursor_blink_setting(blink@) == Err::<Seq<char>, Seq<char>>(e.0@),
        },
{
    match CursorStyle::blink_from_name(blink) {
        Some(b) => Ok(CursorStyle::blink_name(b)),
        None => {
            let mut out: Vec<char> = Vec::new();
            append_str(&mut out, "cursor blink is ");
            append_str(&mut out, CursorStyle::blink_name(true));
            append_str(&mut out, " or ");
            append_str(&mut out, CursorStyle::blink_name(false));
            append_str(&mut out, ", not ");
            let chars = chars_of(blink);
            append_debug(&mut out, chars.as_slice());
            Err(InvalidSetting(string_of(out.as_slice())))
        },
    }
}

/// The cursor as its two stored settings describe it, each its default
/// when unset, or the message for a stored value this build cannot read.
pub open spec fn cursor_from_settings(shape: Option<Seq<char>>, blink: Option<Seq<char>>) -> Result<
    CursorStyle,
    Seq<char>,
> {
    let shape_read = match shape {
        None => Ok(CursorShape::Beam),
        Some(v) => match shape_named(v) {
            Some(s) => Ok(s),
            None => Err("the cursor shape setting is "@ + debug_str(v)),
        },
    };
    match shape_read {
        Err(m) => Err(m),
        Ok(s) => match blink {
            None => Ok(CursorStyle { shape: s, blink: false }),
            Some(v) => match blink_named(v) {
                Some(b) => Ok(CursorStyle { shape: s, blink: b }),
                None => Err("the cursor blink setting is "@ + debug_str(v)),
            },
        },
    }
}

/// Some text, if there is any.
pub open spec fn text_view(text: Option<&str>) -> Option<Seq<char>> {
    match text {
        Some(t) => Some(t@),
        None => None,
    }
}

/// How the cursor is shown during a session, from the two stored settings
/// (`None` where unset, which reads as the default steady beam).
pub fn cursor_of(shape: Option<&str>, blink: Option<&str>) -> (r: Result<CursorStyle, Corrupt>)
    ensures
        match r {
            Ok(c) => cursor_from_settings(text_view(shape), text_view(blink)) == Ok::<CursorStyle, Seq<char>>(c),
            Err(e) => cursor_from_settings(text_view(shape), text_view(blink)) == Err::<CursorStyle, Seq<char>>(
                e.0@,
            ),
        },
{
    let default = CursorStyle::default();
    let shape = match shape {
        None => default.shape,
        Some(value) => match CursorShape::from_name(value) {
            Some(s) => s,
            None => {
                let mut out: Vec<char> = Vec::new();
                append_str(&mut out, "the cursor shape setting is ");
                let chars = chars_of(value);
                append_debug(&mut out, chars.as_slice());
                return Err(Corrupt(string_of(out.as_slice())));
            },
        },
    };
    let blink = match blink {
        None => default.blink,
        Some(value) => match CursorStyle::blink_from_name(value) {
            Some(b) => b,
            None => {
                let mut out: Vec<char> = Vec::new();
                append_str(&mut out, "the cursor blink setting is ");
                let chars = chars_of(value);
                append_debug(&mut out, chars.as_slice());
                return Err(Corrupt(string_of(out.as_slice())));
            },
        },
    };
    Ok(CursorStyle { shape, blink })
}

/// A profile's session length as stored: the default when unset, or the
/// message for a stored value that is not one.
pub open spec fn words_from_setting(profile: Seq<char>, value: Option<Seq<char>>) -> Result<usize, Seq<char>> {
    match value {
        None => Ok(DEFAULT_WORDS),
        Some(v) => match words_of_text(v) {
            Some(n) => Ok(n),
            None => Err("profile "@ + debug_str(profile) + " has the session length "@ + debug_str(v)),
        },
    }
}

/// A profile's session length from its stored setting (`None` where unset).
pub fn words_of(profile: &Profile, value: Option<&str>) -> (r: Result<usize, Corrupt>)
    ensures
        match r {
            Ok(n) => words_from_setting(profile@.name, text_view(value)) == Ok::<usize, Seq<char>>(n),
            Err(e) => words_from_setting(profile@.name, text_view(value)) == Err::<usize, Seq<char>>(e.0@),
        },
{
    match value {
        None => Ok(DEFAULT_WORDS),
        Some(v) => match words_in_range(v) {
            Some(n) => Ok(n),
            None => {
                let mut out: Vec<char> = Vec::new();
                append_str(&mut out, "profile ");
                let name = chars_of(profile.name.as_str());
                append_debug(&mut out, name.as_slice());
                append_str(&mut out, " has the session length ");
                let chars = chars_of(v);
                append_debug(&mut out, chars.as_slice());
                Err(Corrupt(string_of(out.as_slice())))
            },
        },
    }
}

/// Whether binding a profile to `layout` changes anything: a profile may
/// always be set to the layout it has.
pub fn layout_changes(profile: &Profile, layout: &str) -> (r: bool)
    ensures
        r == (layout@ != profile@.layout),
{
    let a = chars_of(layout);
    let b = chars_of(profile.layout.as_str());
    !crate::text::chars_equal(a.as_slice(), b.as_slice())
}

/// Why a profile cannot be bound to another layout: sessions have been
/// typed on it (`typed_on`), or this build does not know the layout.
pub open spec fn layout_change_problem(profile: ProfileView, layout: Seq<char>, typed_on: bool) -> Option<Seq<char>> {
    if typed_on {
        Some(
            "profile "@ + debug_str(profile.name) + " has sessions typed on "@ + profile.layout
                + "; a layout cannot change after that, so use another profile for "@ + layout,
        )
    } else if layout_named(layout) is None {
        Some("unknown layout "@ + debug_str(layout) + "; the layouts are "@ + layout_name(qwerty()))
    } else {
        None
    }
}

/// Checks binding a profile to another layout: allowed only while no
/// session has been typed on it, since its statistics describe typing on
/// one keyboard, and only to a layout this build knows.
pub fn check_layout_change(profile: &Profile, layout: &str, typed_on: bool) -> (r: Result<(), InvalidSetting>)
    ensures
        match r {
            Ok(()) => layout_change_problem(profile@, layout@, typed_on) is None,
            Err(e) => layout_change_problem(profile@, layout@, typed_on) == Some(e.0@),
        },
{
    if typed_on {
        let mut out: Vec<char> = Vec::new();
        append_str(&mut out, "profile ");
        let name = chars_of(profile.name.as_str());
        append_debug(&mut out, name.as_slice());
        append_str(&mut out, " has sessions typed on ");
        append_str(&mut out, profile.layout.as_str());
        append_str(&mut out, "; a layout cannot change after that, so use another profile for ");
        append_str(&mut out, layout);
        return Err(InvalidSetting(string_of(out.as_slice())));
    }
    if Layout::by_name(layout).is_none() {
        let mut out: Vec<char> = Vec::new();
        append_str(&mut out, "unknown layout ");
        let chars = chars_of(layout);
        append_debug(&mut out, chars.as_slice());
        append_str(&mut out, "; the layouts are ");
        let known = Layout::all();
        append_str(&mut out, known[0].name());
        return Err(InvalidSetting(string_of(out.as_slice())));
    }
    Ok(())
}

/// A cursor stored as its shape's name and its blink's name reads back as
/// itself.
pub proof fn lemma_cursor_settings_round_trip(style: CursorStyle)
    ensures
        cursor_from_settings(Some(shape_name(style.shape)), Some(blink_name_of(style.blink))) == Ok::<
            CursorStyle,
            Seq<char>,
        >(style),
{
    crate::display::lemma_cursor_names_round_trip(style.shape, style.blink);
}

} // verus!
