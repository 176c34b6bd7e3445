//! The JSON written into prompt rows: arrays of pattern texts and a probe's
//! contamination. What is written here reads back through `store::json`
//! as what was written.

use vstd::prelude::*;

use crate::compose::{word_role_name, ComposedWord, Contamination, WordRole};
use crate::store::json::{
    contamination_members, contamination_of, document, items_at, members_at, skip_ws,
    string_array_of, string_items, string_rest, value_at, word_at, JsonProblem,
    JsonView, ReadProblem,
};
use crate::corpus::CORPUS_VERSION;
use crate::model::MODEL_VERSION;
use crate::store::sessions::{index, negative_message, Corrupt};
use crate::text::{append_str, chars_of, string_of, text_of, texts_view};

verus! {

// --- What is written --------------------------------------------------------------

/// One character as it stands inside a JSON string: a backslash or a quote
/// behind a backslash, anything else as it is.
pub open spec fn escape_char(c: char) -> Seq<char> {
    if c == '\\' || c == '"' {
        seq!['\\', c]
    } else {
        seq![c]
    }
}

/// A text as it stands inside a JSON string.
pub open spec fn escaped(t: Seq<char>) -> Seq<char>
    decreases t.len(),
{
    if t.len() == 0 {
        seq![]
    } else {
        escaped(t.drop_last()) + escape_char(t.last())
    }
}

/// A text as a JSON string literal.
pub open spec fn quoted(t: Seq<char>) -> Seq<char> {
    seq!['"'] + escaped(t) + seq!['"']
}

/// Texts as string literals, separated by commas.
pub open spec fn joined(items: Seq<Seq<char>>) -> Seq<char>
    decreases items.len(),
{
    if items.len() == 0 {
        seq![]
    } else if items.len() == 1 {
        quoted(items[0])
    } else {
        joined(items.drop_last()) + seq![','] + quoted(items.last())
    }
}

/// Texts as a JSON array of strings.
pub open spec fn strings_json(items: Seq<Seq<char>>) -> Seq<char> {
    seq!['['] + joined(items) + seq![']']
}

/// A neighbouring word's role as written: its name as a string, or `null`
/// where there is no such word.
pub open spec fn role_json(role: Option<WordRole>) -> Seq<char> {
    match role {
        Some(r) => quoted(word_role_name(r)),
        None => "null"@,
    }
}

/// A flag as written.
pub open spec fn flag_json(b: bool) -> Seq<char> {
    if b {
        "true"@
    } else {
        "false"@
    }
}

/// The role of the word at `i`, where there is one.
pub open spec fn neighbour(words: Seq<ComposedWord>, i: int) -> Option<WordRole> {
    if 0 <= i < words.len() {
        Some(words[i].role)
    } else {
        None
    }
}

/// A probe's contamination as written: the roles of the words either side
/// of it, whether the word was recently targeted, and which of its
/// patterns were.
pub open spec fn contamination_text(
    before: Option<WordRole>,
    after: Option<WordRole>,
    recent_word: bool,
    patterns: Seq<Seq<char>>,
) -> Seq<char> {
    seq!['{'] + member_json("before"@, role_json(before)) + seq![','] + member_json(
        "after"@,
        role_json(after),
    ) + seq![','] + member_json("recent_word"@, flag_json(recent_word)) + seq![','] + member_json(
        "recent_patterns"@,
        strings_json(patterns),
    ) + seq!['}']
}

/// An object member as written: the key as a string, a colon, the value.
pub open spec fn member_json(key: Seq<char>, value: Seq<char>) -> Seq<char> {
    quoted(key) + seq![':'] + value
}

// --- Lemmas on the written form -----------------------------------------------------

/// Escaping a concatenation escapes each part.
pub proof fn lemma_escaped_concat(a: Seq<char>, b: Seq<char>)
    ensures
        escaped(a + b) == escaped(a) + escaped(b),
    decreases b.len(),
{
    if b.len() == 0 {
        assert(a + b =~= a);
        assert(escaped(a) + escaped(b) =~= escaped(a));
    } else {
        lemma_escaped_concat(a, b.drop_last());
        assert((a + b).drop_last() =~= a + b.drop_last());
        assert((a + b).last() == b.last());
        assert(escaped(a + b) =~= escaped(a) + escaped(b));
    }
}

/// The escaped form of one character.
proof fn lemma_escaped_one(c: char)
    ensures
        escaped(seq![c]) == escape_char(c),
{
    assert(seq![c].drop_last() =~= Seq::<char>::empty());
    assert(escaped(Seq::<char>::empty()) + escape_char(c) =~= escape_char(c));
}

/// Texts joined, seen from the front: the first literal, a comma, and the
/// rest.
proof fn lemma_joined_front(items: Seq<Seq<char>>)
    requires
        items.len() >= 2,
    ensures
        joined(items) == quoted(items[0]) + seq![','] + joined(items.drop_first()),
    decreases items.len(),
{
    let front = items.drop_last();
    let rest = items.drop_first();
    if items.len() == 2 {
        assert(front.len() == 1 && front[0] == items[0]);
        assert(rest.len() == 1 && rest[0] == items[1]);
        assert(joined(front) == quoted(items[0]));
        assert(joined(rest) == quoted(items[1]));
        assert(items.last() == items[1]);
    } else {
        lemma_joined_front(front);
        assert(front.drop_first() =~= rest.drop_last());
        assert(rest.last() == items.last());
        assert(front[0] == items[0]);
        assert(joined(rest) == joined(rest.drop_last()) + seq![','] + quoted(rest.last()));
        assert(joined(items) =~= quoted(items[0]) + seq![','] + joined(rest));
    }
}

/// A string literal's body followed by its closing quote reads back as
/// the text it escapes.
pub proof fn lemma_string_rest_escaped(p: Seq<char>, t: Seq<char>, q: Seq<char>, acc: Seq<char>)
    ensures
        string_rest(p + escaped(t) + seq!['"'] + q, p.len() as int, acc) == Ok::<
            (Seq<char>, int),
            JsonProblem,
        >((acc + t, (p.len() + escaped(t).len() + 1) as int)),
    decreases t.len(),
{
    let s = p + escaped(t) + seq!['"'] + q;
    let i = p.len() as int;
    if t.len() == 0 {
        assert(escaped(t) =~= Seq::<char>::empty());
        assert(s[i] == '"');
        assert(acc + t =~= acc);
    } else {
        let c = t[0];
        let rest = t.drop_first();
        assert(seq![c] + rest =~= t);
        lemma_escaped_concat(seq![c], rest);
        lemma_escaped_one(c);
        let e = escape_char(c);
        let p2 = p + e;
        assert(s =~= p2 + escaped(rest) + seq!['"'] + q);
        lemma_string_rest_escaped(p2, rest, q, acc.push(c));
        assert(acc.push(c) + rest =~= acc + t);
        if c == '\\' || c == '"' {
            assert(s[i] == '\\');
            assert(s[i + 1] == c);
        } else {
            assert(s[i] == c);
        }
    }
}

/// What some texts read back as: JSON strings.
pub open spec fn str_views(items: Seq<Seq<char>>) -> Seq<JsonView> {
    Seq::new(items.len(), |k: int| JsonView::Str(items[k]))
}

/// The position just past whitespace is the position itself where no
/// whitespace stands.
proof fn lemma_no_ws_at(s: Seq<char>, i: int)
    requires
        0 <= i < s.len(),
        s[i] == '"' || s[i] == ',' || s[i] == ']' || s[i] == '[' || s[i] == '}' || s[i] == ':'
            || s[i] == '{' || s[i] == 'n' || s[i] == 't' || s[i] == 'f',
    ensures
        skip_ws(s, i) == i,
{
}

/// A string literal at `p.len()` reads as a value ending after it.
proof fn lemma_value_string(p: Seq<char>, t: Seq<char>, q: Seq<char>)
    ensures
        value_at(p + quoted(t) + q, p.len() as int) == Ok::<(JsonView, int), JsonProblem>(
            (JsonView::Str(t), (p.len() + quoted(t).len()) as int),
        ),
{
    let s = p + quoted(t) + q;
    let i = p.len() as int;
    assert(s[i] == '"');
    lemma_no_ws_at(s, i);
    assert(s =~= (p + seq!['"']) + escaped(t) + seq!['"'] + q);
    lemma_string_rest_escaped(p + seq!['"'], t, q, seq![]);
    assert(Seq::<char>::empty() + t =~= t);
}

/// The items of a written array, from the first, read back as the texts.
proof fn lemma_items_read(p: Seq<char>, items: Seq<Seq<char>>, q: Seq<char>, acc: Seq<JsonView>)
    requires
        items.len() >= 1,
    ensures
        items_at(p + joined(items) + seq![']'] + q, p.len() as int, acc) == Ok::<
            (JsonView, int),
            JsonProblem,
        >((JsonView::Array(acc + str_views(items)), (p.len() + joined(items).len() + 1) as int)),
    decreases items.len(),
{
    let s = p + joined(items) + seq![']'] + q;
    let i = p.len() as int;
    let t = items[0];
    let e = i + quoted(t).len();
    if items.len() == 1 {
        assert(joined(items) == quoted(t));
        assert(s =~= p + quoted(t) + (seq![']'] + q));
        lemma_value_string(p, t, seq![']'] + q);
        assert(s[e] == ']');
        lemma_no_ws_at(s, e);
        assert(acc.push(JsonView::Str(t)) =~= acc + str_views(items));
    } else {
        let rest = items.drop_first();
        lemma_joined_front(items);
        assert(s =~= p + quoted(t) + (seq![','] + joined(rest) + seq![']'] + q));
        lemma_value_string(p, t, seq![','] + joined(rest) + seq![']'] + q);
        assert(s[e] == ',');
        lemma_no_ws_at(s, e);
        let p2 = p + quoted(t) + seq![','];
        assert(s =~= p2 + joined(rest) + seq![']'] + q);
        lemma_items_read(p2, rest, q, acc.push(JsonView::Str(t)));
        assert(acc.push(JsonView::Str(t)) + str_views(rest) =~= acc + str_views(items));
    }
}

/// A written array of strings at `p.len()` reads as a value ending after it.
proof fn lemma_value_strings(p: Seq<char>, items: Seq<Seq<char>>, q: Seq<char>)
    ensures
        value_at(p + strings_json(items) + q, p.len() as int) == Ok::<(JsonView, int), JsonProblem>(
            (JsonView::Array(str_views(items)), (p.len() + strings_json(items).len()) as int),
        ),
{
    let s = p + strings_json(items) + q;
    let i = p.len() as int;
    assert(s[i] == '[');
    lemma_no_ws_at(s, i);
    if items.len() == 0 {
        assert(joined(items) =~= Seq::<char>::empty());
        assert(s[i + 1] == ']');
        lemma_no_ws_at(s, i + 1);
        assert(str_views(items) =~= Seq::<JsonView>::empty());
    } else {
        if items.len() == 1 {
            assert(joined(items) == quoted(items[0]));
        } else {
            lemma_joined_front(items);
        }
        assert(joined(items)[0] == '"');
        assert(s[i + 1] == '"');
        lemma_no_ws_at(s, i + 1);
        let p2 = p + seq!['['];
        assert(s =~= p2 + joined(items) + seq![']'] + q);
        lemma_items_read(p2, items, q, seq![]);
        assert(Seq::<JsonView>::empty() + str_views(items) =~= str_views(items));
    }
}

/// The strings of written string views are the texts.
proof fn lemma_string_items_of_views(items: Seq<Seq<char>>, n: int)
    requires
        0 <= n <= items.len(),
    ensures
        string_items(str_views(items), n) == Some(items.take(n)),
    decreases n,
{
    if n > 0 {
        lemma_string_items_of_views(items, n - 1);
        assert(items.take(n - 1).push(items[n - 1]) =~= items.take(n));
    }
}

/// Texts written as a JSON array of strings read back as the same texts,
/// in the same order.
pub proof fn lemma_string_array_round_trip(items: Seq<Seq<char>>)
    ensures
        string_array_of(strings_json(items)) == Ok::<Seq<Seq<char>>, ReadProblem>(items),
{
    let s = strings_json(items);
    let none = Seq::<char>::empty();
    assert(s =~= none + strings_json(items) + none);
    lemma_value_strings(none, items, none);
    assert(document(s) == Ok::<JsonView, JsonProblem>(JsonView::Array(str_views(items))));
    lemma_string_items_of_views(items, items.len() as int);
    assert(items.take(items.len() as int) =~= items);
}

/// What a written neighbour role reads back as.
pub open spec fn role_view(role: Option<WordRole>) -> JsonView {
    match role {
        Some(r) => JsonView::Str(word_role_name(r)),
        None => JsonView::Null,
    }
}

/// A written neighbour role at `p.len()` reads as a value ending after it.
proof fn lemma_value_role(p: Seq<char>, role: Option<WordRole>, q: Seq<char>)
    ensures
        value_at(p + role_json(role) + q, p.len() as int) == Ok::<(JsonView, int), JsonProblem>(
            (role_view(role), (p.len() + role_json(role).len()) as int),
        ),
{
    match role {
        Some(r) => {
            lemma_value_string(p, word_role_name(r), q);
        },
        None => {
            reveal_strlit("null");
            reveal_strlit("true");
            reveal_strlit("false");
            let s = p + "null"@ + q;
            let i = p.len() as int;
            assert(s[i] == 'n');
            lemma_no_ws_at(s, i);
            assert(!word_at(s, i, "true"@)) by {
                if word_at(s, i, "true"@) {
                    assert(s.subrange(i, i + 4)[0] == 'n');
                }
            }
            assert(!word_at(s, i, "false"@)) by {
                if word_at(s, i, "false"@) {
                    assert(s.subrange(i, i + 5)[0] == 'n');
                }
            }
            assert(s.subrange(i, i + 4) =~= "null"@);
        },
    }
}

/// A written flag at `p.len()` reads as a value ending after it.
proof fn lemma_value_flag(p: Seq<char>, b: bool, q: Seq<char>)
    ensures
        value_at(p + flag_json(b) + q, p.len() as int) == Ok::<(JsonView, int), JsonProblem>(
            (JsonView::Bool(b), (p.len() + flag_json(b).len()) as int),
        ),
{
    reveal_strlit("true");
    reveal_strlit("false");
    let s = p + flag_json(b) + q;
    let i = p.len() as int;
    if b {
        assert(s[i] == 't');
        lemma_no_ws_at(s, i);
        assert(s.subrange(i, i + 4) =~= "true"@);
    } else {
        assert(s[i] == 'f');
        lemma_no_ws_at(s, i);
        assert(!word_at(s, i, "true"@)) by {
            if word_at(s, i, "true"@) {
                assert(s.subrange(i, i + 4)[0] == 'f');
            }
        }
        assert(s.subrange(i, i + 5) =~= "false"@);
    }
}

/// One written member, a key and a value, followed by a comma or the
/// closing brace: the reading goes on after the comma, or ends the object.
proof fn lemma_member(
    p: Seq<char>,
    key: Seq<char>,
    v: Seq<char>,
    q: Seq<char>,
    view: JsonView,
    acc: Seq<(Seq<char>, JsonView)>,
)
    requires
        q.len() > 0,
        q[0] == ',' || q[0] == '}',
        v.len() > 0,
        value_at((p + quoted(key) + seq![':']) + v + q, (p.len() + quoted(key).len() + 1) as int)
            == Ok::<(JsonView, int), JsonProblem>(
            (view, (p.len() + quoted(key).len() + 1 + v.len()) as int),
        ),
    ensures
        q[0] == ',' ==> members_at(p + member_json(key, v) + q, p.len() as int, acc) == members_at(
            p + member_json(key, v) + q,
            (p.len() + member_json(key, v).len() + 1) as int,
            acc.push((key, view)),
        ),
        q[0] == '}' ==> members_at(p + member_json(key, v) + q, p.len() as int, acc) == Ok::<
            (JsonView, int),
            JsonProblem,
        >(
            (
                JsonView::Object(acc.push((key, view))),
                (p.len() + member_json(key, v).len() + 1) as int,
            ),
        ),
{
    let s = p + member_json(key, v) + q;
    assert(s =~= (p + quoted(key) + seq![':']) + v + q);
    let i = p.len() as int;
    let e = i + quoted(key).len();
    let f = e + 1 + v.len();
    assert(s[i] == '"');
    lemma_no_ws_at(s, i);
    assert(s =~= (p + seq!['"']) + escaped(key) + seq!['"'] + (seq![':'] + v + q));
    lemma_string_rest_escaped(p + seq!['"'], key, seq![':'] + v + q, seq![]);
    assert(Seq::<char>::empty() + key =~= key);
    assert(s[e] == ':');
    lemma_no_ws_at(s, e);
    assert(s[f] == q[0]);
    lemma_no_ws_at(s, f);
}

/// The members a written contamination reads back as.
pub open spec fn contamination_view(
    before: Option<WordRole>,
    after: Option<WordRole>,
    recent_word: bool,
    patterns: Seq<Seq<char>>,
) -> Seq<(Seq<char>, JsonView)> {
    seq![
        ("before"@, role_view(before)),
        ("after"@, role_view(after)),
        ("recent_word"@, JsonView::Bool(recent_word)),
        ("recent_patterns"@, JsonView::Array(str_views(patterns))),
    ]
}

/// An object's members read from `i` on; its definition is revealed only
/// where one step of the reading is taken.
#[verifier::opaque]
pub open spec fn members_from(s: Seq<char>, i: int, acc: Seq<(Seq<char>, JsonView)>) -> Result<
    (JsonView, int),
    JsonProblem,
> {
    members_at(s, i, acc)
}

/// The reading of one written member: it goes on after the member's comma,
/// or, for the last member, ends the object.
pub open spec fn member_step(
    s: Seq<char>,
    i: int,
    key: Seq<char>,
    v: Seq<char>,
    last: bool,
    view: JsonView,
    acc: Seq<(Seq<char>, JsonView)>,
) -> bool {
    let next = i + member_json(key, v).len() + 1;
    if last {
        members_from(s, i, acc) == Ok::<(JsonView, int), JsonProblem>(
            (JsonView::Object(acc.push((key, view))), next),
        )
    } else {
        members_from(s, i, acc) == members_from(s, next, acc.push((key, view)))
    }
}

/// A member holding a neighbour role.
proof fn lemma_role_member(
    p: Seq<char>,
    key: Seq<char>,
    role: Option<WordRole>,
    q: Seq<char>,
    acc: Seq<(Seq<char>, JsonView)>,
)
    requires
        q.len() > 0,
        q[0] == ',',
    ensures
        member_step(p + member_json(key, role_json(role)) + q, p.len() as int, key, role_json(role), false, role_view(role), acc),
{
    reveal(members_from);
    reveal_strlit("null");
    let v = role_json(role);
    assert(v.len() > 0);
    lemma_value_role(p + quoted(key) + seq![':'], role, q);
    lemma_member(p, key, v, q, role_view(role), acc);
}

/// A member holding a flag.
proof fn lemma_flag_member(
    p: Seq<char>,
    key: Seq<char>,
    b: bool,
    q: Seq<char>,
    acc: Seq<(Seq<char>, JsonView)>,
)
    requires
        q.len() > 0,
        q[0] == ',',
    ensures
        member_step(p + member_json(key, flag_json(b)) + q, p.len() as int, key, flag_json(b), false, JsonView::Bool(b), acc),
{
    reveal(members_from);
    reveal_strlit("true");
    reveal_strlit("false");
    let v = flag_json(b);
    assert(v.len() > 0);
    lemma_value_flag(p + quoted(key) + seq![':'], b, q);
    lemma_member(p, key, v, q, JsonView::Bool(b), acc);
}

/// The last member, holding an array of strings.
proof fn lemma_strings_member(
    p: Seq<char>,
    key: Seq<char>,
    items: Seq<Seq<char>>,
    acc: Seq<(Seq<char>, JsonView)>,
)
    ensures
        member_step(
            p + member_json(key, strings_json(items)) + seq!['}'],
            p.len() as int,
            key,
            strings_json(items),
            true,
            JsonView::Array(str_views(items)),
            acc,
        ),
{
    reveal(members_from);
    let v = strings_json(items);
    lemma_value_strings(p + quoted(key) + seq![':'], items, seq!['}']);
    lemma_member(p, key, v, seq!['}'], JsonView::Array(str_views(items)), acc);
}

/// A written contamination is one object holding its four members.
#[verifier::spinoff_prover]
proof fn lemma_contamination_document(
    before: Option<WordRole>,
    after: Option<WordRole>,
    recent_word: bool,
    patterns: Seq<Seq<char>>,
)
    ensures
        document(contamination_text(before, after, recent_word, patterns)) == Ok::<JsonView, JsonProblem>(
            JsonView::Object(contamination_view(before, after, recent_word, patterns)),
        ),
{
    let s = contamination_text(before, after, recent_word, patterns);
    let k1 = "before"@;
    let k2 = "after"@;
    let k3 = "recent_word"@;
    let k4 = "recent_patterns"@;
    let v1 = role_json(before);
    let v2 = role_json(after);
    let v3 = flag_json(recent_word);
    let v4 = strings_json(patterns);
    let m1 = member_json(k1, v1);
    let m2 = member_json(k2, v2);
    let m3 = member_json(k3, v3);
    let m4 = member_json(k4, v4);
    let comma = seq![','];
    let p1 = seq!['{'];
    let p2 = p1 + m1 + comma;
    let p3 = p2 + m2 + comma;
    let p4 = p3 + m3 + comma;
    let q4 = seq!['}'];
    let q3 = comma + m4 + q4;
    let q2 = comma + m3 + q3;
    let q1 = comma + m2 + q2;
    assert(s =~= p1 + m1 + q1);
    assert(s =~= p2 + m2 + q2);
    assert(s =~= p3 + m3 + q3);
    assert(s =~= p4 + m4 + q4);
    let e1 = (k1, role_view(before));
    let e2 = (k2, role_view(after));
    let e3 = (k3, JsonView::Bool(recent_word));
    let none = Seq::<(Seq<char>, JsonView)>::empty();
    let ms = contamination_view(before, after, recent_word, patterns);
    lemma_role_member(p1, k1, before, q1, none);
    lemma_role_member(p2, k2, after, q2, none.push(e1));
    lemma_flag_member(p3, k3, recent_word, q3, none.push(e1).push(e2));
    lemma_strings_member(p4, k4, patterns, none.push(e1).push(e2).push(e3));
    assert(none.push(e1).push(e2).push(e3).push((k4, JsonView::Array(str_views(patterns)))) =~= ms);
    assert(members_from(s, 1, none) == Ok::<(JsonView, int), JsonProblem>(
        (JsonView::Object(ms), s.len() as int),
    ));
    lemma_members_from(s, 1, none);
    assert(s[0] == '{');
    lemma_no_ws_at(s, 0);
    assert(s[1] == '"');
    lemma_no_ws_at(s, 1);
}

/// The members read from `i` on.
proof fn lemma_members_from(s: Seq<char>, i: int, acc: Seq<(Seq<char>, JsonView)>)
    ensures
        members_from(s, i, acc) == members_at(s, i, acc),
{
    reveal(members_from);
}

/// The four members of a written contamination say what it was written
/// with.
proof fn lemma_contamination_members_of(
    before: Option<WordRole>,
    after: Option<WordRole>,
    recent_word: bool,
    patterns: Seq<Seq<char>>,
)
    ensures
        contamination_members(
            contamination_view(before, after, recent_word, patterns),
            4,
        ) == Ok::<(Option<bool>, Option<Seq<Seq<char>>>), ReadProblem>(
            (Some(recent_word), Some(patterns)),
        ),
{
    reveal_strlit("before");
    reveal_strlit("after");
    reveal_strlit("recent_word");
    reveal_strlit("recent_patterns");
    let ms = contamination_view(before, after, recent_word, patterns);
    let k1 = "before"@;
    let k2 = "after"@;
    let k3 = "recent_word"@;
    let k4 = "recent_patterns"@;
    assert(k1 != k3 && k1 != k4 && k2 != k3 && k2 != k4 && k4 != k3) by {
        assert(k1.len() != k3.len() && k1.len() != k4.len() && k2.len() != k3.len());
        assert(k2.len() != k4.len() && k4.len() != k3.len());
    }
    lemma_string_items_of_views(patterns, patterns.len() as int);
    assert(patterns.take(patterns.len() as int) =~= patterns);
    assert(ms[0] == (k1, role_view(before)));
    assert(ms[1] == (k2, role_view(after)));
    assert(ms[2] == (k3, JsonView::Bool(recent_word)));
    assert(ms[3] == (k4, JsonView::Array(str_views(patterns))));
    assert(contamination_members(ms, 0) == Ok::<(Option<bool>, Option<Seq<Seq<char>>>), ReadProblem>(
        (None, None),
    ));
    assert(contamination_members(ms, 1) == Ok::<(Option<bool>, Option<Seq<Seq<char>>>), ReadProblem>(
        (None, None),
    ));
    assert(contamination_members(ms, 2) == Ok::<(Option<bool>, Option<Seq<Seq<char>>>), ReadProblem>(
        (None, None),
    ));
    assert(contamination_members(ms, 3) == Ok::<(Option<bool>, Option<Seq<Seq<char>>>), ReadProblem>(
        (Some(recent_word), None),
    ));
}

/// A probe's contamination, as written, reads back as the flag and the
/// patterns it was written with, whatever the neighbouring roles.
pub proof fn lemma_contamination_round_trip(
    before: Option<WordRole>,
    after: Option<WordRole>,
    recent_word: bool,
    patterns: Seq<Seq<char>>,
)
    ensures
        contamination_of(contamination_text(before, after, recent_word, patterns)) == Ok::<
            (bool, Seq<Seq<char>>),
            ReadProblem,
        >((recent_word, patterns)),
{
    lemma_contamination_document(before, after, recent_word, patterns);
    lemma_contamination_members_of(before, after, recent_word, patterns);
}

// --- Writing ----------------------------------------------------------------------

/// Appends a text as a JSON string literal.
fn push_quoted(out: &mut Vec<char>, s: &str)
    ensures
        final(out)@ == old(out)@ + quoted(s@),
{
    let chars = chars_of(s);
    let ghost start = out@;
    out.push('"');
    let mut i: usize = 0;
    while i < chars.len()
        invariant
            i <= chars@.len(),
            chars@ == s@,
            out@ == start + seq!['"'] + escaped(s@.take(i as int)),
        decreases chars@.len() - i,
    {
        let c = chars[i];
        if c == '\\' || c == '"' {
            out.push('\\');
        }
        out.push(c);
        proof {
            assert(s@.take(i + 1).drop_last() =~= s@.take(i as int));
            assert(s@.take(i + 1).last() == c);
            assert(out@ =~= start + seq!['"'] + escaped(s@.take(i + 1)));
        }
        i += 1;
    }
    out.push('"');
    proof {
        assert(s@.take(chars@.len() as int) =~= s@);
        assert(out@ =~= start + quoted(s@));
    }
}

/// A text as a JSON string literal, backslashes and quotes escaped.
pub fn json_string(s: &str) -> (r: String)
    ensures
        r@ == quoted(s@),
{
    let mut out: Vec<char> = Vec::new();
    push_quoted(&mut out, s);
    assert(out@ =~= quoted(s@));
    string_of(out.as_slice())
}

/// Appends texts as a JSON array of strings.
fn push_strings(out: &mut Vec<char>, items: &[String])
    ensures
        final(out)@ == old(out)@ + strings_json(texts_view(items@)),
{
    let ghost start = out@;
    let ghost texts = texts_view(items@);
    out.push('[');
    let mut i: usize = 0;
    while i < items.len()
        invariant
            i <= items@.len(),
            texts == texts_view(items@),
            out@ == start + seq!['['] + joined(texts.take(i as int)),
        decreases items@.len() - i,
    {
        if i > 0 {
            out.push(',');
        }
        push_quoted(out, items[i].as_str());
        proof {
            let next = texts.take(i + 1);
            assert(next.drop_last() =~= texts.take(i as int));
            assert(next.last() == items@[i as int]@);
            if i == 0 {
                assert(next.len() == 1 && next[0] == items@[0]@);
                assert(texts.take(0) =~= Seq::<Seq<char>>::empty());
            }
            assert(out@ =~= start + seq!['['] + joined(next));
        }
        i += 1;
    }
    out.push(']');
    proof {
        assert(texts.take(items@.len() as int) =~= texts);
        assert(out@ =~= start + strings_json(texts));
    }
}

/// Texts as a JSON array of strings, in order.
pub fn json_strings(items: &[String]) -> (r: String)
    ensures
        r@ == strings_json(texts_view(items@)),
        string_array_of(r@) == Ok::<Seq<Seq<char>>, ReadProblem>(texts_view(items@)),
{
    let mut out: Vec<char> = Vec::new();
    push_strings(&mut out, items);
    proof {
        assert(out@ =~= strings_json(texts_view(items@)));
        lemma_string_array_round_trip(texts_view(items@));
    }
    string_of(out.as_slice())
}

/// Appends the role of the word at `i`, or `null` where there is none.
fn push_neighbour(out: &mut Vec<char>, words: &[ComposedWord], i: Option<usize>)
    ensures
        final(out)@ == old(out)@ + role_json(
            match i {
                Some(k) => neighbour(words@, k as int),
                None => None,
            },
        ),
{
    match i {
        Some(k) => {
            if k < words.len() {
                push_quoted(out, words[k].role.name());
                return;
            }
        },
        None => {},
    }
    append_str(out, "null");
}

/// A probe's contamination as stored: the roles of the words either side
/// of the word at `index` (`null` at the prompt's edges), whether the word
/// itself was recently targeted, and which of its patterns were.
pub fn contamination_json(c: &Contamination, words: &[ComposedWord], index: usize) -> (r: String)
    requires
        index < usize::MAX,
    ensures
        r@ == contamination_text(
            neighbour(words@, index - 1),
            neighbour(words@, index + 1),
            c.recently_targeted_word,
            texts_view(c.recently_targeted_patterns@),
        ),
        contamination_of(r@) == Ok::<(bool, Seq<Seq<char>>), ReadProblem>(
            (c.recently_targeted_word, texts_view(c.recently_targeted_patterns@)),
        ),
{
    let ghost before_role = neighbour(words@, index - 1);
    let ghost after_role = neighbour(words@, index + 1);
    let ghost patterns = texts_view(c.recently_targeted_patterns@);
    let mut out: Vec<char> = Vec::new();
    out.push('{');
    let before: Option<usize> = if index > 0 {
        Some(index - 1)
    } else {
        None
    };
    push_member_start(&mut out, "before");
    push_neighbour(&mut out, words, before);
    let ghost m1 = out@;
    assert(m1 =~= seq!['{'] + member_json("before"@, role_json(before_role)));
    out.push(',');
    push_member_start(&mut out, "after");
    push_neighbour(&mut out, words, Some(index + 1));
    let ghost m2 = out@;
    assert(m2 =~= m1 + seq![','] + member_json("after"@, role_json(after_role)));
    out.push(',');
    push_member_start(&mut out, "recent_word");
    if c.recently_targeted_word {
        append_str(&mut out, "true");
    } else {
        append_str(&mut out, "false");
    }
    let ghost m3 = out@;
    assert(m3 =~= m2 + seq![','] + member_json("recent_word"@, flag_json(c.recently_targeted_word)));
    out.push(',');
    push_member_start(&mut out, "recent_patterns");
    push_strings(&mut out, c.recently_targeted_patterns.as_slice());
    let ghost m4 = out@;
    assert(m4 =~= m3 + seq![','] + member_json("recent_patterns"@, strings_json(patterns)));
    out.push('}');
    proof {
        assert(out@ =~= contamination_text(before_role, after_role, c.recently_targeted_word, patterns));
        lemma_contamination_round_trip(before_role, after_role, c.recently_targeted_word, patterns);
    }
    string_of(out.as_slice())
}

/// Appends a member's key and its colon.
fn push_member_start(out: &mut Vec<char>, key: &str)
    ensures
        final(out)@ == old(out)@ + quoted(key@) + seq![':'],
{
    push_quoted(out, key);
    out.push(':');
}

/// What a prompt was composed for. A prompt composed ahead is shown only
/// to a session with the same context; a changed setting, a new corpus, a
/// new model version, or another layout makes it stale.
#[derive(Debug, Clone, PartialEq, Eq)]
pub struct Context {
    pub word_count: usize,
    pub corpus_version: u32,
    pub model_version: u32,
    pub layout: String,
}

impl Context {
    /// The context of a prompt composed by this build for the given
    /// settings.
    pub fn current(word_count: usize, layout: &str) -> (r: Context)
        ensures
            r.word_count == word_count,
            r.corpus_version == CORPUS_VERSION,
            r.model_version == MODEL_VERSION,
            r.layout@ == layout@,
    {
        Context {
            word_count,
            corpus_version: CORPUS_VERSION,
            model_version: MODEL_VERSION,
            layout: text_of(layout),
        }
    }
}

/// A dose column, which can only be a count: the value where it fits one,
/// else the message that names the column.
pub fn dose(value: i64, column: &str) -> (r: Result<usize, Corrupt>)
    ensures
        match r {
            Ok(n) => 0 <= value <= usize::MAX && n == value,
            Err(e) => (value < 0 || value > usize::MAX) && e.0@ == negative_message(column@, value),
        },
{
    index(value, column)
}

} // verus!
