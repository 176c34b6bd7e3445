//! Reads the JSON the store writes into prompt rows: arrays of pattern texts
//! and a probe's contamination object. Only what the writer produces is
//! understood; anything else is reported as corrupt.

use vstd::prelude::*;

use crate::compose::Contamination;
use crate::text::{append_str, char_is_whitespace, chars_of, is_whitespace, str_equal, string_of, texts_view};

verus! {

/// A JSON value as read.
pub enum JsonView {
    Null,
    Bool(bool),
    Number(Seq<char>),
    Str(Seq<char>),
    Array(Seq<JsonView>),
    Object(Seq<(Seq<char>, JsonView)>),
}

/// A JSON value.
pub enum JsonValue {
    Null,
    Bool(bool),
    /// A number, kept as written.
    Number(String),
    Str(String),
    Array(Vec<JsonValue>),
    Object(Vec<(String, JsonValue)>),
}

impl JsonValue {
    /// What a value holds.
    pub open spec fn view_of(&self) -> JsonView
        decreases self,
    {
        match self {
            JsonValue::Null => JsonView::Null,
            JsonValue::Bool(b) => JsonView::Bool(*b),
            JsonValue::Number(n) => JsonView::Number(n@),
            JsonValue::Str(s) => JsonView::Str(s@),
            JsonValue::Array(items) => JsonView::Array(
                Seq::new(
                    items@.len(),
                    |i: int|
                        if 0 <= i < items@.len() {
                            items@[i].view_of()
                        } else {
                            JsonView::Null
                        },
                ),
            ),
            JsonValue::Object(members) => JsonView::Object(
                Seq::new(
                    members@.len(),
                    |i: int|
                        if 0 <= i < members@.len() {
                            (members@[i].0@, members@[i].1.view_of())
                        } else {
                            (Seq::empty(), JsonView::Null)
                        },
                ),
            ),
        }
    }
}

/// Why a text is not the JSON the store writes.
#[derive(Debug, Clone, Copy, PartialEq, Eq, Structural)]
pub enum JsonProblem {
    UnexpectedEnd,
    Unexpected,
    Expected(char),
    UnterminatedString,
    UnsupportedEscape(char),
    NotANumber,
    TrailingText,
}

/// How many decimal digits stand in `t` from `i` on.
pub open spec fn digit_run(t: Seq<char>, i: int) -> int
    decreases t.len() - i,
{
    if i < 0 || i >= t.len() || !('0' <= t[i] && t[i] <= '9') {
        0
    } else {
        1 + digit_run(t, i + 1)
    }
}

/// Whether a text is a decimal number as the standard library's float
/// reading accepts one: an optional sign, digits with at most one decimal
/// point and at least one digit, and an optional exponent of `e` or `E`, an
/// optional sign, and at least one digit.
pub open spec fn float_syntax(t: Seq<char>) -> bool {
    let p0: int = if t.len() > 0 && (t[0] == '+' || t[0] == '-') { 1 } else { 0 };
    let a = digit_run(t, p0);
    let dot = p0 + a < t.len() && t[p0 + a] == '.';
    let b = if dot { digit_run(t, p0 + a + 1) } else { 0 };
    let m = if dot { p0 + a + 1 + b } else { p0 + a };
    &&& a + b >= 1
    &&& (m == t.len() || {
        &&& t[m] == 'e' || t[m] == 'E'
        &&& {
            let q: int = if m + 1 < t.len() && (t[m + 1] == '+' || t[m + 1] == '-') { m + 2 } else { m + 1 };
            let c = digit_run(t, q);
            c >= 1 && q + c == t.len()
        }
    })
}

proof fn lemma_digit_run(t: Seq<char>, i: int)
    requires
        0 <= i <= t.len(),
    ensures
        0 <= digit_run(t, i) <= t.len() - i,
    decreases t.len() - i,
{
    if i < t.len() && '0' <= t[i] && t[i] <= '9' {
        lemma_digit_run(t, i + 1);
    }
}

/// How many digits stand from `i` on.
fn count_digits(t: &[char], i: usize) -> (r: usize)
    requires
        i <= t@.len(),
    ensures
        r == digit_run(t@, i as int),
        i + r <= t@.len(),
{
    proof {
        lemma_digit_run(t@, i as int);
    }
    let mut k = i;
    while k < t.len() && '0' <= t[k] && t[k] <= '9'
        invariant
            i <= k <= t@.len(),
            digit_run(t@, i as int) == (k - i) + digit_run(t@, k as int),
        decreases t@.len() - k,
    {
        k += 1;
    }
    k - i
}

/// Whether a text is a decimal number the float reading accepts.
fn is_float_text(t: &[char]) -> (r: bool)
    ensures
        r == float_syntax(t@),
{
    let p0: usize = if t.len() > 0 && (t[0] == '+' || t[0] == '-') { 1 } else { 0 };
    if p0 > t.len() {
        return false;
    }
    let a = count_digits(t, p0);
    let dot = p0 + a < t.len() && t[p0 + a] == '.';
    let b = if dot { count_digits(t, p0 + a + 1) } else { 0 };
    let m = if dot { p0 + a + 1 + b } else { p0 + a };
    if a + b < 1 {
        return false;
    }
    if m == t.len() {
        return true;
    }
    if !(t[m] == 'e' || t[m] == 'E') {
        return false;
    }
    let q: usize = if m + 1 < t.len() && (t[m + 1] == '+' || t[m + 1] == '-') { m + 2 } else { m + 1 };
    let c = count_digits(t, q);
    c >= 1 && q + c == t.len()
}

// --- The grammar ------------------------------------------------------------------

/// The first position from `i` on that is not whitespace.
pub open spec fn skip_ws(s: Seq<char>, i: int) -> int
    decreases s.len() - i,
{
    if i < 0 || i >= s.len() || !char_is_whitespace(s[i]) {
        i
    } else {
        skip_ws(s, i + 1)
    }
}

/// A character that may stand in a number's text.
pub open spec fn number_char(c: char) -> bool {
    ('0' <= c && c <= '9') || c == '-' || c == '+' || c == '.' || c == 'e' || c == 'E'
}

/// The first position from `i` on whose character cannot stand in a
/// number.
pub open spec fn number_end(s: Seq<char>, i: int) -> int
    decreases s.len() - i,
{
    if i < 0 || i >= s.len() || !number_char(s[i]) {
        i
    } else {
        number_end(s, i + 1)
    }
}

/// The rest of a string from `i` on, its characters so far `acc`: the
/// string's text and the position after its closing quote.
pub open spec fn string_rest(s: Seq<char>, i: int, acc: Seq<char>) -> Result<(Seq<char>, int), JsonProblem>
    decreases s.len() - i,
{
    if i < 0 || i >= s.len() {
        Err(JsonProblem::UnterminatedString)
    } else if s[i] == '"' {
        Ok((acc, i + 1))
    } else if s[i] == '\\' {
        if i + 1 >= s.len() {
            Err(JsonProblem::UnterminatedString)
        } else {
            let e = s[i + 1];
            if e == '"' || e == '\\' || e == '/' {
                string_rest(s, i + 2, acc.push(e))
            } else if e == 'n' {
                string_rest(s, i + 2, acc.push('\n'))
            } else if e == 't' {
                string_rest(s, i + 2, acc.push('\t'))
            } else {
                Err(JsonProblem::UnsupportedEscape(e))
            }
        }
    } else {
        string_rest(s, i + 1, acc.push(s[i]))
    }
}

/// A string starting with its opening quote at `i`.
pub open spec fn string_at(s: Seq<char>, i: int) -> Result<(Seq<char>, int), JsonProblem> {
    if 0 <= i < s.len() && s[i] == '"' {
        string_rest(s, i + 1, seq![])
    } else {
        Err(JsonProblem::Expected('"'))
    }
}

/// Whether `word` stands in `s` at `i`.
pub open spec fn word_at(s: Seq<char>, i: int, word: Seq<char>) -> bool {
    0 <= i && i + word.len() <= s.len() && s.subrange(i, i + word.len()) == word
}

/// A value starting at `i`, leading whitespace allowed: the value and the
/// position after it.
pub open spec fn value_at(s: Seq<char>, i: int) -> Result<(JsonView, int), JsonProblem>
    decreases s.len() - i, 0int,
{
    let j = skip_ws(s, i);
    if j < i || j >= s.len() {
        Err(JsonProblem::UnexpectedEnd)
    } else {
        let c = s[j];
        if c == '{' {
            let k = skip_ws(s, j + 1);
            if k < j + 1 {
                Err(JsonProblem::UnexpectedEnd)
            } else if k < s.len() && s[k] == '}' {
                Ok((JsonView::Object(seq![]), k + 1))
            } else {
                members_at(s, j + 1, seq![])
            }
        } else if c == '[' {
            let k = skip_ws(s, j + 1);
            if k < j + 1 {
                Err(JsonProblem::UnexpectedEnd)
            } else if k < s.len() && s[k] == ']' {
                Ok((JsonView::Array(seq![]), k + 1))
            } else {
                items_at(s, j + 1, seq![])
            }
        } else if c == '"' {
            match string_at(s, j) {
                Ok((text, e)) => Ok((JsonView::Str(text), e)),
                Err(p) => Err(p),
            }
        } else if c == '-' || ('0' <= c && c <= '9') {
            let e = number_end(s, j);
            if float_syntax(s.subrange(j, e)) {
                Ok((JsonView::Number(s.subrange(j, e)), e))
            } else {
                Err(JsonProblem::NotANumber)
            }
        } else if word_at(s, j, "true"@) {
            Ok((JsonView::Bool(true), j + 4))
        } else if word_at(s, j, "false"@) {
            Ok((JsonView::Bool(false), j + 5))
        } else if word_at(s, j, "null"@) {
            Ok((JsonView::Null, j + 4))
        } else {
            Err(JsonProblem::Unexpected)
        }
    }
}

/// An array's items from `i` on, the items so far `acc`: the array and the
/// position after its closing bracket.
pub open spec fn items_at(s: Seq<char>, i: int, acc: Seq<JsonView>) -> Result<(JsonView, int), JsonProblem>
    decreases s.len() - i, 1int,
{
    if i < 0 || i > s.len() {
        Err(JsonProblem::UnexpectedEnd)
    } else {
        match value_at(s, i) {
            Err(p) => Err(p),
            Ok((v, e)) => {
                let k = skip_ws(s, e);
                if e <= i || k < e {
                    Err(JsonProblem::UnexpectedEnd)
                } else if k < s.len() && s[k] == ',' {
                    items_at(s, k + 1, acc.push(v))
                } else if k < s.len() && s[k] == ']' {
                    Ok((JsonView::Array(acc.push(v)), k + 1))
                } else {
                    Err(JsonProblem::Expected(']'))
                }
            },
        }
    }
}

/// An object's members from `i` on, the members so far `acc`: the object
/// and the position after its closing brace.
pub open spec fn members_at(s: Seq<char>, i: int, acc: Seq<(Seq<char>, JsonView)>) -> Result<
    (JsonView, int),
    JsonProblem,
>
    decreases s.len() - i, 1int,
{
    let k = skip_ws(s, i);
    if i < 0 || k < i {
        Err(JsonProblem::UnexpectedEnd)
    } else {
        match string_at(s, k) {
            Err(p) => Err(p),
            Ok((key, e)) => {
                let c = skip_ws(s, e);
                if e <= i || c < e {
                    Err(JsonProblem::UnexpectedEnd)
                } else if !(c < s.len() && s[c] == ':') {
                    Err(JsonProblem::Expected(':'))
                } else {
                    match value_at(s, c + 1) {
                        Err(p) => Err(p),
                        Ok((v, f)) => {
                            let d = skip_ws(s, f);
                            if f <= i || d < f {
                                Err(JsonProblem::UnexpectedEnd)
                            } else if d < s.len() && s[d] == ',' {
                                members_at(s, d + 1, acc.push((key, v)))
                            } else if d < s.len() && s[d] == '}' {
                                Ok((JsonView::Object(acc.push((key, v))), d + 1))
                            } else {
                                Err(JsonProblem::Expected('}'))
                            }
                        },
                    }
                }
            },
        }
    }
}

/// The one value a text holds, with nothing but whitespace after it.
pub open spec fn document(s: Seq<char>) -> Result<JsonView, JsonProblem> {
    match value_at(s, 0) {
        Err(p) => Err(p),
        Ok((v, e)) => if skip_ws(s, e) == s.len() {
            Ok(v)
        } else {
            Err(JsonProblem::TrailingText)
        },
    }
}

// --- Reading ----------------------------------------------------------------------

/// What some values hold.
pub open spec fn values_view(v: Seq<JsonValue>) -> Seq<JsonView> {
    Seq::new(v.len(), |i: int| v[i].view_of())
}

/// What some members hold.
pub open spec fn members_view(v: Seq<(String, JsonValue)>) -> Seq<(Seq<char>, JsonView)> {
    Seq::new(v.len(), |i: int| (v[i].0@, v[i].1.view_of()))
}

/// An array's view holds its items' views.
pub proof fn lemma_array_view(items: Vec<JsonValue>)
    ensures
        JsonValue::Array(items).view_of() == JsonView::Array(values_view(items@)),
{
    let v = JsonValue::Array(items);
    let x = match v.view_of() {
        JsonView::Array(x) => x,
        _ => Seq::empty(),
    };
    assert(x =~= values_view(items@));
}

/// An object's view holds its members' keys and values' views.
pub proof fn lemma_object_view(members: Vec<(String, JsonValue)>)
    ensures
        JsonValue::Object(members).view_of() == JsonView::Object(members_view(members@)),
{
    let v = JsonValue::Object(members);
    let x = match v.view_of() {
        JsonView::Object(x) => x,
        _ => Seq::empty(),
    };
    assert(x =~= members_view(members@));
}

/// Skipping whitespace never moves back or past the end.
pub proof fn lemma_skip_ws(s: Seq<char>, i: int)
    requires
        0 <= i <= s.len(),
    ensures
        i <= skip_ws(s, i) <= s.len(),
        skip_ws(s, i) < s.len() ==> !char_is_whitespace(s[skip_ws(s, i)]),
    decreases s.len() - i,
{
    if i < s.len() && char_is_whitespace(s[i]) {
        lemma_skip_ws(s, i + 1);
    }
}

/// The first position from `i` on that is not whitespace.
fn skip_whitespace(s: &[char], i: usize) -> (r: usize)
    requires
        i <= s@.len(),
    ensures
        r == skip_ws(s@, i as int),
        i <= r <= s@.len(),
{
    proof {
        lemma_skip_ws(s@, i as int);
    }
    let mut k = i;
    while k < s.len() && is_whitespace(s[k])
        invariant
            i <= k <= s@.len(),
            skip_ws(s@, i as int) == skip_ws(s@, k as int),
        decreases s@.len() - k,
    {
        k += 1;
    }
    k
}

/// The rest of a string from `i` on.
fn read_string_rest(s: &[char], i: usize) -> (r: Result<(Vec<char>, usize), JsonProblem>)
    requires
        i <= s@.len(),
    ensures
        match r {
            Ok((text, e)) => string_rest(s@, i as int, seq![]) == Ok::<(Seq<char>, int), JsonProblem>(
                (text@, e as int),
            ) && i < e <= s@.len(),
            Err(p) => string_rest(s@, i as int, seq![]) == Err::<(Seq<char>, int), JsonProblem>(p),
        },
{
    let mut out: Vec<char> = Vec::new();
    let mut k = i;
    while k < s.len()
        invariant
            i <= k <= s@.len(),
            string_rest(s@, i as int, seq![]) == string_rest(s@, k as int, out@),
        decreases s@.len() - k,
    {
        let c = s[k];
        if c == '"' {
            return Ok((out, k + 1));
        }
        if c == '\\' {
            if k + 1 >= s.len() {
                return Err(JsonProblem::UnterminatedString);
            }
            let e = s[k + 1];
            if e == '"' || e == '\\' || e == '/' {
                out.push(e);
            } else if e == 'n' {
                out.push('\n');
            } else if e == 't' {
                out.push('\t');
            } else {
                return Err(JsonProblem::UnsupportedEscape(e));
            }
            k += 2;
        } else {
            out.push(c);
            k += 1;
        }
    }
    Err(JsonProblem::UnterminatedString)
}

/// A string starting with its opening quote at `i`.
fn read_string(s: &[char], i: usize) -> (r: Result<(Vec<char>, usize), JsonProblem>)
    requires
        i <= s@.len(),
    ensures
        match r {
            Ok((text, e)) => string_at(s@, i as int) == Ok::<(Seq<char>, int), JsonProblem>((text@, e as int))
                && i < e <= s@.len(),
            Err(p) => string_at(s@, i as int) == Err::<(Seq<char>, int), JsonProblem>(p),
        },
{
    if i < s.len() && s[i] == '"' {
        read_string_rest(s, i + 1)
    } else {
        Err(JsonProblem::Expected('"'))
    }
}

/// Whether a word stands at `i`.
fn word_is_at(s: &[char], i: usize, word: &str) -> (r: bool)
    requires
        i <= s@.len(),
    ensures
        r == word_at(s@, i as int, word@),
{
    let w = chars_of(word);
    let n = s.len();
    if w.len() > n - i {
        return false;
    }
    let mut k: usize = 0;
    while k < w.len()
        invariant
            n == s@.len(),
            k <= w@.len(),
            w@ == word@,
            i + w@.len() <= s@.len(),
            forall|m: int| 0 <= m < k ==> s@[i + m] == w@[m],
        decreases w@.len() - k,
    {
        if s[i + k] != w[k] {
            assert(s@.subrange(i as int, i + w@.len())[k as int] != w@[k as int]);
            return false;
        }
        k += 1;
    }
    assert(s@.subrange(i as int, i + w@.len()) =~= w@);
    true
}

/// The first position from `i` on whose character cannot stand in a
/// number.
fn find_number_end(s: &[char], i: usize) -> (r: usize)
    requires
        i <= s@.len(),
    ensures
        r == number_end(s@, i as int),
        i <= r <= s@.len(),
{
    let mut k = i;
    while k < s.len() && (('0' <= s[k] && s[k] <= '9') || s[k] == '-' || s[k] == '+' || s[k] == '.' || s[k] == 'e'
        || s[k] == 'E')
        invariant
            i <= k <= s@.len(),
            number_end(s@, i as int) == number_end(s@, k as int),
        decreases s@.len() - k,
    {
        k += 1;
    }
    k
}

/// A value starting at `i`.
fn read_value(s: &[char], i: usize) -> (r: Result<(JsonValue, usize), JsonProblem>)
    requires
        i <= s@.len(),
    ensures
        match r {
            Ok((v, e)) => value_at(s@, i as int) == Ok::<(JsonView, int), JsonProblem>((v.view_of(), e as int))
                && i < e <= s@.len(),
            Err(p) => value_at(s@, i as int) == Err::<(JsonView, int), JsonProblem>(p),
        },
    decreases s@.len() - i, 0int,
{
    let j = skip_whitespace(s, i);
    if j >= s.len() {
        return Err(JsonProblem::UnexpectedEnd);
    }
    let c = s[j];
    if c == '{' {
        let k = skip_whitespace(s, j + 1);
        if k < s.len() && s[k] == '}' {
            let members: Vec<(String, JsonValue)> = Vec::new();
            proof {
                lemma_object_view(members);
                assert(members_view(members@) =~= Seq::<(Seq<char>, JsonView)>::empty());
            }
            return Ok((JsonValue::Object(members), k + 1));
        }
        let members: Vec<(String, JsonValue)> = Vec::new();
        assert(members_view(members@) =~= Seq::<(Seq<char>, JsonView)>::empty());
        read_members(s, j + 1, members)
    } else if c == '[' {
        let k = skip_whitespace(s, j + 1);
        if k < s.len() && s[k] == ']' {
            let items: Vec<JsonValue> = Vec::new();
            proof {
                lemma_array_view(items);
                assert(values_view(items@) =~= Seq::<JsonView>::empty());
            }
            return Ok((JsonValue::Array(items), k + 1));
        }
        let items: Vec<JsonValue> = Vec::new();
        assert(values_view(items@) =~= Seq::<JsonView>::empty());
        read_items(s, j + 1, items)
    } else if c == '"' {
        match read_string(s, j) {
            Ok((text, e)) => Ok((JsonValue::Str(string_of(text.as_slice())), e)),
            Err(p) => Err(p),
        }
    } else if c == '-' || ('0' <= c && c <= '9') {
        let e = find_number_end(s, j);
        let digits = crate::text::sub_chars(s, j, e);
        if is_float_text(digits.as_slice()) {
            Ok((JsonValue::Number(string_of(digits.as_slice())), e))
        } else {
            Err(JsonProblem::NotANumber)
        }
    } else if word_is_at(s, j, "true") {
        proof {
            reveal_strlit("true");
        }
        Ok((JsonValue::Bool(true), j + 4))
    } else if word_is_at(s, j, "false") {
        proof {
            reveal_strlit("false");
        }
        Ok((JsonValue::Bool(false), j + 5))
    } else if word_is_at(s, j, "null") {
        proof {
            reveal_strlit("null");
        }
        Ok((JsonValue::Null, j + 4))
    } else {
        Err(JsonProblem::Unexpected)
    }
}

/// An array's items from `i` on.
fn read_items(s: &[char], i: usize, acc: Vec<JsonValue>) -> (r: Result<(JsonValue, usize), JsonProblem>)
    requires
        i <= s@.len(),
    ensures
        match r {
            Ok((v, e)) => items_at(s@, i as int, values_view(acc@)) == Ok::<(JsonView, int), JsonProblem>(
                (v.view_of(), e as int),
            ) && i < e <= s@.len(),
            Err(p) => items_at(s@, i as int, values_view(acc@)) == Err::<(JsonView, int), JsonProblem>(p),
        },
    decreases s@.len() - i, 1int,
{
    match read_value(s, i) {
        Err(p) => Err(p),
        Ok((v, e)) => {
            let k = skip_whitespace(s, e);
            let ghost before = values_view(acc@);
            let ghost vv = v.view_of();
            let mut acc = acc;
            acc.push(v);
            assert(values_view(acc@) =~= before.push(vv));
            if k < s.len() && s[k] == ',' {
                read_items(s, k + 1, acc)
            } else if k < s.len() && s[k] == ']' {
                proof {
                    lemma_array_view(acc);
                }
                Ok((JsonValue::Array(acc), k + 1))
            } else {
                Err(JsonProblem::Expected(']'))
            }
        },
    }
}

/// An object's members from `i` on.
fn read_members(s: &[char], i: usize, acc: Vec<(String, JsonValue)>) -> (r: Result<(JsonValue, usize), JsonProblem>)
    requires
        i <= s@.len(),
    ensures
        match r {
            Ok((v, e)) => members_at(s@, i as int, members_view(acc@)) == Ok::<(JsonView, int), JsonProblem>(
                (v.view_of(), e as int),
            ) && i < e <= s@.len(),
            Err(p) => members_at(s@, i as int, members_view(acc@)) == Err::<(JsonView, int), JsonProblem>(p),
        },
    decreases s@.len() - i, 1int,
{
    let k = skip_whitespace(s, i);
    let (key, e) = match read_string(s, k) {
        Err(p) => {
            return Err(p);
        },
        Ok(found) => found,
    };
    let c = skip_whitespace(s, e);
    if !(c < s.len() && s[c] == ':') {
        return Err(JsonProblem::Expected(':'));
    }
    match read_value(s, c + 1) {
        Err(p) => Err(p),
        Ok((v, f)) => {
            let d = skip_whitespace(s, f);
            let ghost before = members_view(acc@);
            let ghost member = (key@, v.view_of());
            let mut acc = acc;
            acc.push((string_of(key.as_slice()), v));
            assert(members_view(acc@) =~= before.push(member));
            if d < s.len() && s[d] == ',' {
                read_members(s, d + 1, acc)
            } else if d < s.len() && s[d] == '}' {
                proof {
                    lemma_object_view(acc);
                }
                Ok((JsonValue::Object(acc), d + 1))
            } else {
                Err(JsonProblem::Expected('}'))
            }
        },
    }
}

/// Reads the one value a text holds, with nothing but whitespace after it.
pub fn read_document(json: &str) -> (r: Result<JsonValue, JsonProblem>)
    ensures
        match r {
            Ok(v) => document(json@) == Ok::<JsonView, JsonProblem>(v.view_of()),
            Err(p) => document(json@) == Err::<JsonView, JsonProblem>(p),
        },
{
    let s = chars_of(json);
    match read_value(s.as_slice(), 0) {
        Err(p) => Err(p),
        Ok((v, e)) => {
            if skip_whitespace(s.as_slice(), e) == s.len() {
                Ok(v)
            } else {
                Err(JsonProblem::TrailingText)
            }
        },
    }
}

// --- What the store reads --------------------------------------------------------

/// Why stored JSON could not be read back.
#[derive(Debug, Clone, Copy, PartialEq, Eq, Structural)]
pub enum ReadProblem {
    Syntax(JsonProblem),
    NotAnArray,
    NotAString,
    NotAnObject,
    RecentWordNotABool,
    RecentPatternsNotAnArray,
    RecentPatternNotAString,
    NoRecentWord,
    NoRecentPatterns,
}

/// The texts of some values, if every one is a string.
pub open spec fn string_items(items: Seq<JsonView>, n: int) -> Option<Seq<Seq<char>>>
    decreases n,
{
    if n <= 0 {
        Some(seq![])
    } else {
        match string_items(items, n - 1) {
            None => None,
            Some(texts) => match items[n - 1] {
                JsonView::Str(t) => Some(texts.push(t)),
                _ => None,
            },
        }
    }
}

/// The strings of a stored array.
pub open spec fn string_array_of(json: Seq<char>) -> Result<Seq<Seq<char>>, ReadProblem> {
    match document(json) {
        Err(p) => Err(ReadProblem::Syntax(p)),
        Ok(JsonView::Array(items)) => match string_items(items, items.len() as int) {
            Some(texts) => Ok(texts),
            None => Err(ReadProblem::NotAString),
        },
        Ok(_) => Err(ReadProblem::NotAnArray),
    }
}

/// What contamination's members say after the first `n`: the recent word
/// flag and the recent patterns, each once met, or the first member that
/// holds the wrong kind of value. Other members are passed over; a later
/// member overrides an earlier one of the same name.
pub open spec fn contamination_members(members: Seq<(Seq<char>, JsonView)>, n: int) -> Result<
    (Option<bool>, Option<Seq<Seq<char>>>),
    ReadProblem,
>
    decreases n,
{
    if n <= 0 {
        Ok((None, None))
    } else {
        match contamination_members(members, n - 1) {
            Err(p) => Err(p),
            Ok((word, patterns)) => {
                let (key, value) = members[n - 1];
                if key == "recent_word"@ {
                    match value {
                        JsonView::Bool(b) => Ok((Some(b), patterns)),
                        _ => Err(ReadProblem::RecentWordNotABool),
                    }
                } else if key == "recent_patterns"@ {
                    match value {
                        JsonView::Array(items) => match string_items(items, items.len() as int) {
                            Some(texts) => Ok((word, Some(texts))),
                            None => Err(ReadProblem::RecentPatternNotAString),
                        },
                        _ => Err(ReadProblem::RecentPatternsNotAnArray),
                    }
                } else {
                    Ok((word, patterns))
                }
            },
        }
    }
}

/// A probe's contamination as stored: whether the word was recently
/// targeted and which recently practised patterns it holds.
pub open spec fn contamination_of(json: Seq<char>) -> Result<(bool, Seq<Seq<char>>), ReadProblem> {
    match document(json) {
        Err(p) => Err(ReadProblem::Syntax(p)),
        Ok(JsonView::Object(members)) => match contamination_members(members, members.len() as int) {
            Err(p) => Err(p),
            Ok((None, _)) => Err(ReadProblem::NoRecentWord),
            Ok((Some(_), None)) => Err(ReadProblem::NoRecentPatterns),
            Ok((Some(w), Some(p))) => Ok((w, p)),
        },
        Ok(_) => Err(ReadProblem::NotAnObject),
    }
}


/// The texts of some values, if every one is a string.
fn strings_of(items: &Vec<JsonValue>) -> (r: Option<Vec<String>>)
    ensures
        match r {
            Some(v) => string_items(values_view(items@), items@.len() as int) == Some(texts_view(v@)),
            None => string_items(values_view(items@), items@.len() as int) is None,
        },
{
    let ghost views = values_view(items@);
    let mut out: Vec<String> = Vec::new();
    let mut k: usize = 0;
    while k < items.len()
        invariant
            views == values_view(items@),
            k <= items@.len(),
            string_items(views, k as int) == Some(texts_view(out@)),
        decreases items@.len() - k,
    {
        match &items[k] {
            JsonValue::Str(t) => {
                let ghost before = texts_view(out@);
                out.push(string_of(chars_of(t.as_str()).as_slice()));
                assert(texts_view(out@) =~= before.push(t@));
            },
            _ => {
                proof {
                    lemma_string_items_stop(views, k + 1, items@.len() as int);
                }
                return None;
            },
        }
        k += 1;
    }
    Some(out)
}

/// Once an item is not a string, no longer list is all strings.
proof fn lemma_string_items_stop(items: Seq<JsonView>, n: int, m: int)
    requires
        0 <= n <= m,
        string_items(items, n) is None,
    ensures
        string_items(items, m) is None,
    decreases m - n,
{
    if m > n {
        lemma_string_items_stop(items, n, m - 1);
    }
}

/// The patterns in a stored JSON array of strings.
pub fn string_array(json: &str) -> (r: Result<Vec<String>, ReadProblem>)
    ensures
        match r {
            Ok(v) => string_array_of(json@) == Ok::<Seq<Seq<char>>, ReadProblem>(texts_view(v@)),
            Err(p) => string_array_of(json@) == Err::<Seq<Seq<char>>, ReadProblem>(p),
        },
{
    match read_document(json) {
        Err(p) => Err(ReadProblem::Syntax(p)),
        Ok(JsonValue::Array(items)) => {
            proof {
                lemma_array_view(items);
            }
            match strings_of(&items) {
                Some(texts) => Ok(texts),
                None => Err(ReadProblem::NotAString),
            }
        },
        Ok(_) => Err(ReadProblem::NotAnArray),
    }
}

/// A probe's contamination from its stored object. The roles of the
/// neighbouring words are recorded there too but are not read back.
pub fn contamination(json: &str) -> (r: Result<Contamination, ReadProblem>)
    ensures
        match r {
            Ok(c) => contamination_of(json@) == Ok::<(bool, Seq<Seq<char>>), ReadProblem>(
                (c.recently_targeted_word, texts_view(c.recently_targeted_patterns@)),
            ),
            Err(p) => contamination_of(json@) == Err::<(bool, Seq<Seq<char>>), ReadProblem>(p),
        },
{
    let members = match read_document(json) {
        Err(p) => {
            return Err(ReadProblem::Syntax(p));
        },
        Ok(JsonValue::Object(members)) => members,
        Ok(_) => {
            return Err(ReadProblem::NotAnObject);
        },
    };
    proof {
        lemma_object_view(members);
    }
    let ghost views = members_view(members@);
    let mut word: Option<bool> = None;
    let mut patterns: Option<Vec<String>> = None;
    let mut k: usize = 0;
    while k < members.len()
        invariant
            views == members_view(members@),
            document(json@) == Ok::<JsonView, JsonProblem>(JsonView::Object(views)),
            k <= members@.len(),
            contamination_members(views, k as int) == Ok::<(Option<bool>, Option<Seq<Seq<char>>>), ReadProblem>(
                (
                    word,
                    match patterns {
                        Some(p) => Some(texts_view(p@)),
                        None => None,
                    },
                ),
            ),
        decreases members@.len() - k,
    {
        let (key, value) = &members[k];
        assert(views[k as int] == (key@, value.view_of()));
        if str_equal(key.as_str(), "recent_word") {
            match value {
                JsonValue::Bool(b) => {
                    word = Some(*b);
                },
                _ => {
                    proof {
                        lemma_contamination_stop(views, k + 1, members@.len() as int);
                    }
                    return Err(ReadProblem::RecentWordNotABool);
                },
            }
        } else if str_equal(key.as_str(), "recent_patterns") {
            match value {
                JsonValue::Array(items) => {
                    proof {
                        lemma_array_view(*items);
                    }
                    match strings_of(items) {
                        Some(texts) => {
                            patterns = Some(texts);
                        },
                        None => {
                            proof {
                                lemma_contamination_stop(views, k + 1, members@.len() as int);
                            }
                            return Err(ReadProblem::RecentPatternNotAString);
                        },
                    }
                },
                _ => {
                    proof {
                        lemma_contamination_stop(views, k + 1, members@.len() as int);
                    }
                    return Err(ReadProblem::RecentPatternsNotAnArray);
                },
            }
        }
        k += 1;
    }
    let recently_targeted_word = match word {
        Some(w) => w,
        None => {
            return Err(ReadProblem::NoRecentWord);
        },
    };
    match patterns {
        Some(p) => Ok(Contamination { recently_targeted_word, recently_targeted_patterns: p }),
        None => Err(ReadProblem::NoRecentPatterns),
    }
}

/// Once a member holds the wrong kind of value, the problem stands.
proof fn lemma_contamination_stop(members: Seq<(Seq<char>, JsonView)>, n: int, m: int)
    requires
        0 <= n <= m,
        contamination_members(members, n) is Err,
    ensures
        contamination_members(members, m) == contamination_members(members, n),
    decreases m - n,
{
    if m > n {
        lemma_contamination_stop(members, n, m - 1);
    }
}

/// How a problem with stored JSON reads.
pub open spec fn read_problem_text(p: ReadProblem) -> Seq<char> {
    match p {
        ReadProblem::Syntax(JsonProblem::UnexpectedEnd) => "unexpected end"@,
        ReadProblem::Syntax(JsonProblem::Unexpected) => "unexpected text"@,
        ReadProblem::Syntax(JsonProblem::Expected(c)) => "expected "@ + seq![c],
        ReadProblem::Syntax(JsonProblem::UnterminatedString) => "unterminated string"@,
        ReadProblem::Syntax(JsonProblem::UnsupportedEscape(c)) => "unsupported escape \\"@ + seq![c],
        ReadProblem::Syntax(JsonProblem::NotANumber) => "not a number"@,
        ReadProblem::Syntax(JsonProblem::TrailingText) => "trailing text"@,
        ReadProblem::NotAnArray => "expected an array"@,
        ReadProblem::NotAString => "expected a string"@,
        ReadProblem::NotAnObject => "contamination is not an object"@,
        ReadProblem::RecentWordNotABool => "recent_word holds something other than a boolean"@,
        ReadProblem::RecentPatternsNotAnArray => "recent_patterns holds something other than an array"@,
        ReadProblem::RecentPatternNotAString => "recent_patterns holds something other than a string"@,
        ReadProblem::NoRecentWord => "contamination has no recent_word"@,
        ReadProblem::NoRecentPatterns => "contamination has no recent_patterns"@,
    }
}

impl ReadProblem {
    /// The problem as the store reports it: `prompt_words JSON: ` and what
    /// was wrong.
    pub fn message(self) -> (r: String)
        ensures
            r@ == "prompt_words JSON: "@ + read_problem_text(self),
    {
        let mut out: Vec<char> = Vec::new();
        append_str(&mut out, "prompt_words JSON: ");
        match self {
            ReadProblem::Syntax(JsonProblem::UnexpectedEnd) => append_str(&mut out, "unexpected end"),
            ReadProblem::Syntax(JsonProblem::Unexpected) => append_str(&mut out, "unexpected text"),
            ReadProblem::Syntax(JsonProblem::Expected(c)) => {
                append_str(&mut out, "expected ");
                out.push(c);
            },
            ReadProblem::Syntax(JsonProblem::UnterminatedString) => append_str(&mut out, "unterminated string"),
            ReadProblem::Syntax(JsonProblem::UnsupportedEscape(c)) => {
                append_str(&mut out, "unsupported escape \\");
                out.push(c);
            },
            ReadProblem::Syntax(JsonProblem::NotANumber) => append_str(&mut out, "not a number"),
            ReadProblem::Syntax(JsonProblem::TrailingText) => append_str(&mut out, "trailing text"),
            ReadProblem::NotAnArray => append_str(&mut out, "expected an array"),
            ReadProblem::NotAString => append_str(&mut out, "expected a string"),
            ReadProblem::NotAnObject => append_str(&mut out, "contamination is not an object"),
            ReadProblem::RecentWordNotABool => append_str(&mut out, "recent_word holds something other than a boolean"),
            ReadProblem::RecentPatternsNotAnArray => append_str(
                &mut out,
                "recent_patterns holds something other than an array",
            ),
            ReadProblem::RecentPatternNotAString => append_str(
                &mut out,
                "recent_patterns holds something other than a string",
            ),
            ReadProblem::NoRecentWord => append_str(&mut out, "contamination has no recent_word"),
            ReadProblem::NoRecentPatterns => append_str(&mut out, "contamination has no recent_patterns"),
        }
        assert(out@ =~= "prompt_words JSON: "@ + read_problem_text(self));
        string_of(out.as_slice())
    }
}

} // verus!
