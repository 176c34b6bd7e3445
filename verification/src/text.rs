//! Character-level helpers shared by the prompt, the session, and the store.

use vstd::prelude::*;

verus! {

/// Whether `c` has the Unicode `White_Space` property: the tab, line feed,
/// vertical tab, form feed and carriage return, the space, U+0085, the
/// no-break space, U+1680, the spaces U+2000 to U+200A, the line and
/// paragraph separators, U+202F, U+205F and the ideographic space.
pub open spec fn char_is_whitespace(c: char) -> bool {
    ||| '\u{9}' <= c <= '\u{d}'
    ||| c == ' '
    ||| c == '\u{85}'
    ||| c == '\u{a0}'
    ||| c == '\u{1680}'
    ||| '\u{2000}' <= c <= '\u{200a}'
    ||| c == '\u{2028}'
    ||| c == '\u{2029}'
    ||| c == '\u{202f}'
    ||| c == '\u{205f}'
    ||| c == '\u{3000}'
}

/// Whether `c` is in the Unicode general category `Cc` (control codes):
/// U+0000 to U+001F and U+007F to U+009F.
pub open spec fn char_is_control(c: char) -> bool {
    ||| c <= '\u{1f}'
    ||| '\u{7f}' <= c <= '\u{9f}'
}

/// `char::is_whitespace`, which std documents as the Unicode `White_Space`
/// property.
#[verifier::external_body]
pub(crate) fn is_whitespace(c: char) -> (r: bool)
    ensures
        r == char_is_whitespace(c),
{
    c.is_whitespace()
}

/// `char::is_control`, which std documents as the general category `Cc`.
#[verifier::external_body]
pub(crate) fn is_control(c: char) -> (r: bool)
    ensures
        r == char_is_control(c),
{
    c.is_control()
}

/// `String::push`: appends one character.
#[verifier::external_body]
pub(crate) fn push_char(s: &mut String, c: char)
    ensures
        final(s)@ == old(s)@.push(c),
{
    s.push(c);
}

/// The characters of a string slice, in order.
pub fn chars_of(s: &str) -> (out: Vec<char>)
    ensures
        out@ == s@,
{
    let mut out: Vec<char> = Vec::new();
    for c in it: s.chars()
        invariant
            out@ == it.seq().take(it.index() as int),
            it.seq() == s@,
    {
        out.push(c);
    }
    out
}

/// A string holding exactly the given characters.
pub fn string_of(chars: &[char]) -> (out: String)
    ensures
        out@ == chars@,
{
    let mut out = String::new();
    let mut i: usize = 0;
    while i < chars.len()
        invariant
            i <= chars@.len(),
            out@ == chars@.take(i as int),
        decreases chars@.len() - i,
    {
        push_char(&mut out, chars[i]);
        proof {
            assert(chars@.take(i + 1) == chars@.take(i as int).push(chars@[i as int]));
        }
        i += 1;
    }
    proof {
        assert(chars@.take(chars@.len() as int) == chars@);
    }
    out
}

/// Whether two character slices hold the same characters.
pub fn chars_equal(a: &[char], b: &[char]) -> (r: bool)
    ensures
        r == (a@ == b@),
{
    if a.len() != b.len() {
        return false;
    }
    let mut i: usize = 0;
    while i < a.len()
        invariant
            a@.len() == b@.len(),
            i <= a@.len(),
            forall|k: int| 0 <= k < i ==> a@[k] == b@[k],
        decreases a@.len() - i,
    {
        if a[i] != b[i] {
            return false;
        }
        i += 1;
    }
    proof {
        assert(a@ =~= b@);
    }
    true
}

/// Whether two string slices hold the same characters.
pub fn str_equal(a: &str, b: &str) -> (r: bool)
    ensures
        r == (a@ == b@),
{
    let a = chars_of(a);
    let b = chars_of(b);
    chars_equal(a.as_slice(), b.as_slice())
}

/// Whether `suffix` ends `s`.
pub open spec fn is_suffix(suffix: Seq<char>, s: Seq<char>) -> bool {
    suffix.len() <= s.len() && s.subrange(s.len() - suffix.len(), s.len() as int) == suffix
}

/// Whether `suffix` ends `s`, as `str::ends_with` decides it for a string pattern.
pub fn ends_with(s: &[char], suffix: &[char]) -> (r: bool)
    ensures
        r == is_suffix(suffix@, s@),
{
    if suffix.len() > s.len() {
        return false;
    }
    let offset = s.len() - suffix.len();
    let mut i: usize = 0;
    while i < suffix.len()
        invariant
            offset + suffix@.len() == s@.len(),
            s@.len() == s.len(),
            i <= suffix@.len(),
            forall|k: int| 0 <= k < i ==> s@[offset + k] == suffix@[k],
        decreases suffix@.len() - i,
    {
        if s[offset + i] != suffix[i] {
            proof {
                assert(s@.subrange(offset as int, s@.len() as int)[i as int] != suffix@[i as int]);
            }
            return false;
        }
        i += 1;
    }
    proof {
        assert(s@.subrange(offset as int, s@.len() as int) =~= suffix@);
    }
    true
}

/// A copy of a character slice.
pub fn copy_chars(chars: &[char]) -> (out: Vec<char>)
    ensures
        out@ == chars@,
{
    let mut out: Vec<char> = Vec::new();
    let mut i: usize = 0;
    while i < chars.len()
        invariant
            i <= chars@.len(),
            out@ == chars@.take(i as int),
        decreases chars@.len() - i,
    {
        out.push(chars[i]);
        proof {
            assert(chars@.take(i + 1) == chars@.take(i as int).push(chars@[i as int]));
        }
        i += 1;
    }
    proof {
        assert(chars@.take(chars@.len() as int) == chars@);
    }
    out
}

/// The characters `from..to` of a slice.
pub fn sub_chars(chars: &[char], from: usize, to: usize) -> (out: Vec<char>)
    requires
        from <= to <= chars@.len(),
    ensures
        out@ == chars@.subrange(from as int, to as int),
{
    let mut out: Vec<char> = Vec::new();
    let mut i: usize = from;
    while i < to
        invariant
            from <= i <= to <= chars@.len(),
            out@ == chars@.subrange(from as int, i as int),
        decreases to - i,
    {
        out.push(chars[i]);
        proof {
            assert(chars@.subrange(from as int, i + 1) == chars@.subrange(from as int, i as int).push(
                chars@[i as int],
            ));
        }
        i += 1;
    }
    out
}

/// Whether a character is a decimal digit.
pub open spec fn is_digit(c: char) -> bool {
    '0' <= c && c <= '9'
}

/// The number a decimal digit stands for.
pub open spec fn digit_value(c: char) -> int {
    c as int - '0' as int
}

/// The character of a decimal digit.
pub open spec fn digit_char(d: int) -> char {
    if d == 0 {
        '0'
    } else if d == 1 {
        '1'
    } else if d == 2 {
        '2'
    } else if d == 3 {
        '3'
    } else if d == 4 {
        '4'
    } else if d == 5 {
        '5'
    } else if d == 6 {
        '6'
    } else if d == 7 {
        '7'
    } else if d == 8 {
        '8'
    } else {
        '9'
    }
}

/// A number written in decimal.
pub open spec fn decimal(n: nat) -> Seq<char>
    decreases n,
{
    if n < 10 {
        seq![digit_char(n as int)]
    } else {
        decimal(n / 10).push(digit_char((n % 10) as int))
    }
}

/// How `Debug` writes a string: in double quotes, with quotes,
/// backslashes, and characters that do not print escaped.
pub uninterp spec fn debug_str(text: Seq<char>) -> Seq<char>;

/// `<str as Debug>::fmt`, through `format!`: the text as `Debug` writes it.
#[verifier::external_body]
pub(crate) fn debug_text(s: &str) -> (r: String)
    ensures
        r@ == debug_str(s@),
{
    format!("{:?}", s)
}

/// Appends some characters as `Debug` writes them as a string.
pub fn append_debug(out: &mut Vec<char>, text: &[char])
    ensures
        final(out)@ == old(out)@ + debug_str(text@),
{
    let s = string_of(text);
    let d = debug_text(s.as_str());
    let chars = chars_of(d.as_str());
    append(out, chars.as_slice());
}

/// A number written in decimal, as characters.
pub fn decimal_chars(n: usize) -> (r: Vec<char>)
    ensures
        r@ == decimal(n as nat),
    decreases n,
{
    let d = n % 10;
    let c = if d == 0 {
        '0'
    } else if d == 1 {
        '1'
    } else if d == 2 {
        '2'
    } else if d == 3 {
        '3'
    } else if d == 4 {
        '4'
    } else if d == 5 {
        '5'
    } else if d == 6 {
        '6'
    } else if d == 7 {
        '7'
    } else if d == 8 {
        '8'
    } else {
        '9'
    };
    if n < 10 {
        let mut v: Vec<char> = Vec::new();
        v.push(c);
        assert(v@ =~= seq![digit_char(n as int)]);
        v
    } else {
        let mut v = decimal_chars(n / 10);
        v.push(c);
        v
    }
}

/// Appends characters.
pub fn append(out: &mut Vec<char>, more: &[char])
    ensures
        final(out)@ == old(out)@ + more@,
{
    let mut k: usize = 0;
    while k < more.len()
        invariant
            k <= more@.len(),
            out@ == old(out)@ + more@.take(k as int),
        decreases more@.len() - k,
    {
        out.push(more[k]);
        proof {
            assert(more@.take(k + 1) == more@.take(k as int).push(more@[k as int]));
        }
        k += 1;
    }
    assert(more@.take(more@.len() as int) =~= more@);
}

/// Appends a string literal's characters.
pub fn append_str(out: &mut Vec<char>, more: &str)
    ensures
        final(out)@ == old(out)@ + more@,
{
    let chars = chars_of(more);
    append(out, chars.as_slice());
}

/// The first position from `i` on that does not hold whitespace.
pub open spec fn first_non_ws(s: Seq<char>, i: int) -> int
    decreases s.len() - i,
{
    if i < 0 || i >= s.len() || !char_is_whitespace(s[i]) {
        i
    } else {
        first_non_ws(s, i + 1)
    }
}

/// The end of `s` up to `j` once the whitespace before `j` is dropped, but
/// not below `lo`.
pub open spec fn end_non_ws(s: Seq<char>, lo: int, j: int) -> int
    decreases j - lo,
{
    if j <= lo || !char_is_whitespace(s[j - 1]) {
        j
    } else {
        end_non_ws(s, lo, j - 1)
    }
}

/// `s` without its leading and trailing whitespace, as `str::trim` gives
/// it.
pub open spec fn trimmed(s: Seq<char>) -> Seq<char> {
    let a = first_non_ws(s, 0);
    s.subrange(a, end_non_ws(s, a, s.len() as int))
}

/// Skipping whitespace stays within the text.
pub proof fn lemma_first_non_ws(s: Seq<char>, i: int)
    requires
        0 <= i <= s.len(),
    ensures
        i <= first_non_ws(s, i) <= s.len(),
    decreases s.len() - i,
{
    if i < s.len() && char_is_whitespace(s[i]) {
        lemma_first_non_ws(s, i + 1);
    }
}

/// Dropping trailing whitespace stays between `lo` and `j`.
pub proof fn lemma_end_non_ws(s: Seq<char>, lo: int, j: int)
    requires
        0 <= lo <= j <= s.len(),
    ensures
        lo <= end_non_ws(s, lo, j) <= j,
    decreases j - lo,
{
    if j > lo && char_is_whitespace(s[j - 1]) {
        lemma_end_non_ws(s, lo, j - 1);
    }
}

/// Characters without their leading and trailing whitespace.
pub fn trim_chars(s: &[char]) -> (r: Vec<char>)
    ensures
        r@ == trimmed(s@),
{
    let mut a: usize = 0;
    while a < s.len() && is_whitespace(s[a])
        invariant
            a <= s@.len(),
            first_non_ws(s@, a as int) == first_non_ws(s@, 0),
        decreases s@.len() - a,
    {
        a += 1;
    }
    let mut b: usize = s.len();
    while b > a && is_whitespace(s[b - 1])
        invariant
            a <= b <= s@.len(),
            a == first_non_ws(s@, 0),
            end_non_ws(s@, a as int, b as int) == end_non_ws(s@, a as int, s@.len() as int),
        decreases b - a,
    {
        b -= 1;
    }
    sub_chars(s, a, b)
}

/// The first position from `i` on that holds `c`, or the length where none
/// does.
pub open spec fn find_char(s: Seq<char>, c: char, i: int) -> int
    decreases s.len() - i,
{
    if i < 0 || i >= s.len() {
        s.len() as int
    } else if s[i] == c {
        i
    } else {
        find_char(s, c, i + 1)
    }
}

/// The first position from `i` on that holds `c`, or the length.
pub fn find_char_from(s: &[char], c: char, i: usize) -> (r: usize)
    requires
        i <= s@.len(),
    ensures
        r == find_char(s@, c, i as int),
        i <= r <= s@.len(),
        r < s@.len() ==> s@[r as int] == c,
        forall|k: int| i <= k < r ==> s@[k] != c,
{
    let mut k: usize = i;
    while k < s.len() && s[k] != c
        invariant
            i <= k <= s@.len(),
            find_char(s@, c, k as int) == find_char(s@, c, i as int),
            forall|m: int| i <= m < k ==> s@[m] != c,
        decreases s@.len() - k,
    {
        k += 1;
    }
    k
}

/// A string holding a literal's characters.
pub fn text_of(s: &str) -> (r: String)
    ensures
        r@ == s@,
{
    let chars = chars_of(s);
    string_of(chars.as_slice())
}

/// What some strings hold.
pub open spec fn texts_view(v: Seq<String>) -> Seq<Seq<char>> {
    Seq::new(v.len(), |i: int| v[i]@)
}

/// Whether `a` sorts before `b` comparing from position `i` on: by the
/// first character that differs, a text before any longer one it begins.
pub open spec fn text_less_from(a: Seq<char>, b: Seq<char>, i: int) -> bool
    decreases a.len() - i,
{
    if i < 0 || i >= a.len() {
        0 <= i < b.len()
    } else if i >= b.len() {
        false
    } else if a[i] != b[i] {
        a[i] < b[i]
    } else {
        text_less_from(a, b, i + 1)
    }
}

/// Whether `a` sorts before `b`, as `str`'s `Ord` orders texts: by the
/// first character that differs, a text before any longer one it begins.
pub open spec fn text_less(a: Seq<char>, b: Seq<char>) -> bool {
    text_less_from(a, b, 0)
}

/// No text sorts before itself.
pub proof fn lemma_text_less_irreflexive(a: Seq<char>, i: int)
    requires
        0 <= i,
    ensures
        !text_less_from(a, a, i),
    decreases a.len() - i,
{
    if i < a.len() {
        lemma_text_less_irreflexive(a, i + 1);
    }
}

/// Two texts that agree from `i` on neither sorts before the other; any
/// two others, one does.
pub proof fn lemma_text_less_total(a: Seq<char>, b: Seq<char>, i: int)
    requires
        0 <= i <= a.len(),
        i <= b.len(),
    ensures
        text_less_from(a, b, i) || text_less_from(b, a, i) || a.subrange(i, a.len() as int) == b.subrange(
            i,
            b.len() as int,
        ),
        !(text_less_from(a, b, i) && text_less_from(b, a, i)),
    decreases a.len() - i,
{
    if i < a.len() && i < b.len() && a[i] == b[i] {
        lemma_text_less_total(a, b, i + 1);
        if a.subrange(i + 1, a.len() as int) == b.subrange(i + 1, b.len() as int) {
            assert(a.subrange(i, a.len() as int) =~= seq![a[i]] + a.subrange(i + 1, a.len() as int));
            assert(b.subrange(i, b.len() as int) =~= seq![b[i]] + b.subrange(i + 1, b.len() as int));
        }
    } else if i == a.len() && i == b.len() {
        assert(a.subrange(i, a.len() as int) =~= b.subrange(i, b.len() as int));
    }
}

/// The order is transitive.
pub proof fn lemma_text_less_transitive(a: Seq<char>, b: Seq<char>, c: Seq<char>, i: int)
    requires
        0 <= i,
        text_less_from(a, b, i),
        text_less_from(b, c, i),
    ensures
        text_less_from(a, c, i),
    decreases a.len() - i,
{
    if i < a.len() && i < b.len() && i < c.len() && a[i] == b[i] && b[i] == c[i] {
        lemma_text_less_transitive(a, b, c, i + 1);
    }
}

/// Two different texts: one sorts before the other.
pub proof fn lemma_text_order(a: Seq<char>, b: Seq<char>)
    ensures
        !text_less(a, a),
        a != b ==> (text_less(a, b) || text_less(b, a)),
        !(text_less(a, b) && text_less(b, a)),
{
    lemma_text_less_irreflexive(a, 0);
    lemma_text_less_total(a, b, 0);
    assert(a.subrange(0, a.len() as int) =~= a);
    assert(b.subrange(0, b.len() as int) =~= b);
}

/// Whether one text sorts before another.
pub fn chars_less(a: &[char], b: &[char]) -> (r: bool)
    ensures
        r == text_less(a@, b@),
{
    let mut i: usize = 0;
    while i < a.len() && i < b.len() && a[i] == b[i]
        invariant
            i <= a@.len(),
            i <= b@.len(),
            text_less_from(a@, b@, i as int) == text_less_from(a@, b@, 0),
        decreases a@.len() - i,
    {
        i += 1;
    }
    if i >= a.len() {
        i < b.len()
    } else if i >= b.len() {
        false
    } else {
        a[i] < b[i]
    }
}

} // verus!
