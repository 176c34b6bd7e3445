//! Reading a stored scheduler config's members, and the error it reads
//! with.

use vstd::prelude::*;

use crate::text::{
    append_debug, append_str, chars_of, debug_str, find_char, find_char_from, lemma_end_non_ws,
    lemma_first_non_ws, string_of, sub_chars, trim_chars, trimmed,
};

verus! {

/// A `config_json` that could not be read, with what was wrong with it.
#[derive(Debug, Clone, PartialEq, Eq)]
pub struct ConfigError(pub String);

impl ConfigError {
    /// The error as shown: `malformed config: ` and what was wrong.
    pub fn message(&self) -> (r: String)
        ensures
            r@ == "malformed config: "@ + self.0@,
    {
        let mut out = String::new();
        let prefix = crate::text::chars_of("malformed config: ");
        let detail = crate::text::chars_of(self.0.as_str());
        let mut i: usize = 0;
        while i < prefix.len()
            invariant
                i <= prefix@.len(),
                out@ == prefix@.take(i as int),
            decreases prefix@.len() - i,
        {
            crate::text::push_char(&mut out, prefix[i]);
            proof {
                assert(prefix@.take(i + 1) == prefix@.take(i as int).push(prefix@[i as int]));
            }
            i += 1;
        }
        let mut j: usize = 0;
        while j < detail.len()
            invariant
                j <= detail@.len(),
                out@ == prefix@ + detail@.take(j as int),
            decreases detail@.len() - j,
        {
            crate::text::push_char(&mut out, detail[j]);
            proof {
                assert(detail@.take(j + 1) == detail@.take(j as int).push(detail@[j as int]));
            }
            j += 1;
        }
        proof {
            assert(prefix@.take(prefix@.len() as int) =~= prefix@);
            assert(detail@.take(detail@.len() as int) =~= detail@);
        }
        out
    }
}

/// A text cut at every comma, commas dropped: one piece more than it holds
/// commas, as `str::split(',')` gives them.
pub open spec fn split_commas(s: Seq<char>) -> Seq<Seq<char>>
    decreases s.len(),
{
    if s.len() == 0 {
        seq![seq![]]
    } else {
        let before = split_commas(s.drop_last());
        if s.last() == ',' {
            before.push(seq![])
        } else {
            before.update(before.len() - 1, before.last().push(s.last()))
        }
    }
}

/// Cutting at commas always gives at least one piece.
proof fn lemma_split_commas_len(s: Seq<char>)
    ensures
        split_commas(s).len() >= 1,
    decreases s.len(),
{
    if s.len() > 0 {
        lemma_split_commas_len(s.drop_last());
    }
}

/// Whether a trimmed key is a string: in quotes, with no quote inside.
pub open spec fn is_string_key(k: Seq<char>) -> bool {
    &&& k.len() >= 2
    &&& k[0] == '"'
    &&& k.last() == '"'
    &&& !k.subrange(1, k.len() - 1).contains('"')
}

/// One member of a flat object: its name and its value's text, or the
/// message saying what is wrong with it.
pub open spec fn member_of(m: Seq<char>) -> Result<(Seq<char>, Seq<char>), Seq<char>> {
    let k = find_char(m, ':', 0);
    if k >= m.len() {
        Err("member "@ + debug_str(m) + " has no colon"@)
    } else {
        let key = m.subrange(0, k);
        let kt = trimmed(key);
        if !is_string_key(kt) {
            Err("key "@ + debug_str(key) + " is not a string"@)
        } else {
            let name = kt.subrange(1, kt.len() - 1);
            let value = trimmed(m.subrange(k + 1, m.len() as int));
            if value.len() == 0 || value[0] == '"' {
                Err(name + ": "@ + debug_str(value) + " is not a number"@)
            } else {
                Ok((name, value))
            }
        }
    }
}

/// The members of the first `n` pieces, or the first piece's message that
/// is not one.
pub open spec fn members_upto(pieces: Seq<Seq<char>>, n: int) -> Result<Seq<(Seq<char>, Seq<char>)>, Seq<char>>
    decreases n,
{
    if n <= 0 {
        Ok(seq![])
    } else {
        match members_upto(pieces, n - 1) {
            Err(e) => Err(e),
            Ok(ms) => match member_of(pieces[n - 1]) {
                Err(e) => Err(e),
                Ok(m) => Ok(ms.push(m)),
            },
        }
    }
}

/// The members of `{"name": value, ...}`, values left as text: string keys
/// and bare values, with whitespace allowed around them. An empty object
/// has none; anything else is refused with a message.
pub open spec fn flat_object(json: Seq<char>) -> Result<Seq<(Seq<char>, Seq<char>)>, Seq<char>> {
    let t = trimmed(json);
    if !(t.len() >= 2 && t[0] == '{' && t.last() == '}') {
        Err("not a JSON object"@)
    } else {
        let body = t.subrange(1, t.len() - 1);
        if trimmed(body).len() == 0 {
            Ok(seq![])
        } else {
            let pieces = split_commas(body);
            members_upto(pieces, pieces.len() as int)
        }
    }
}

/// What some name and value pairs hold.
pub open spec fn pairs_view(v: Seq<(String, String)>) -> Seq<(Seq<char>, Seq<char>)> {
    Seq::new(v.len(), |i: int| (v[i].0@, v[i].1@))
}

/// What some pieces of text hold.
pub open spec fn pieces_view(v: Seq<Vec<char>>) -> Seq<Seq<char>> {
    Seq::new(v.len(), |i: int| v[i]@)
}

/// A text cut at every comma.
fn split_at_commas(s: &[char]) -> (r: Vec<Vec<char>>)
    ensures
        pieces_view(r@) == split_commas(s@),
{
    let mut pieces: Vec<Vec<char>> = Vec::new();
    let mut current: Vec<char> = Vec::new();
    let mut i: usize = 0;
    while i < s.len()
        invariant
            i <= s@.len(),
            pieces_view(pieces@).push(current@) == split_commas(s@.take(i as int)),
        decreases s@.len() - i,
    {
        let ghost before = split_commas(s@.take(i as int));
        proof {
            assert(s@.take(i + 1).drop_last() =~= s@.take(i as int));
            lemma_split_commas_len(s@.take(i as int));
        }
        if s[i] == ',' {
            let done = current;
            pieces.push(done);
            current = Vec::new();
            proof {
                assert(pieces_view(pieces@).push(current@) =~= before.push(seq![]));
            }
        } else {
            current.push(s[i]);
            proof {
                assert(pieces_view(pieces@).push(current@) =~= before.update(
                    before.len() - 1,
                    before.last().push(s@[i as int]),
                ));
            }
        }
        i += 1;
    }
    pieces.push(current);
    proof {
        assert(s@.take(s@.len() as int) =~= s@);
        assert(pieces_view(pieces@) =~= split_commas(s@));
    }
    pieces
}

/// One member of a flat object: its name and value, or what is wrong.
fn read_member(m: &[char]) -> (r: Result<(String, String), ConfigError>)
    ensures
        match r {
            Ok(p) => member_of(m@) == Ok::<(Seq<char>, Seq<char>), Seq<char>>((p.0@, p.1@)),
            Err(e) => member_of(m@) == Err::<(Seq<char>, Seq<char>), Seq<char>>(e.0@),
        },
{
    let k = find_char_from(m, ':', 0);
    if k >= m.len() {
        let mut out: Vec<char> = Vec::new();
        append_str(&mut out, "member ");
        append_debug(&mut out, m);
        append_str(&mut out, " has no colon");
        return Err(ConfigError(string_of(out.as_slice())));
    }
    let key = sub_chars(m, 0, k);
    let kt = trim_chars(key.as_slice());
    let n = kt.len();
    let mut quoted = n >= 2 && kt[0] == '"' && kt[n - 1] == '"';
    if quoted {
        let inner = sub_chars(kt.as_slice(), 1, n - 1);
        let q = find_char_from(inner.as_slice(), '"', 0);
        if q < inner.len() {
            quoted = false;
            assert(inner@.contains('"'));
        } else {
            assert(!inner@.contains('"')) by {
                if inner@.contains('"') {
                    let w = choose|w: int| 0 <= w < inner@.len() && inner@[w] == '"';
                    assert(inner@[w] != '"');
                }
            }
        }
    }
    if !quoted {
        let mut out: Vec<char> = Vec::new();
        append_str(&mut out, "key ");
        append_debug(&mut out, key.as_slice());
        append_str(&mut out, " is not a string");
        return Err(ConfigError(string_of(out.as_slice())));
    }
    let name = sub_chars(kt.as_slice(), 1, n - 1);
    let rest = sub_chars(m, k + 1, m.len());
    let value = trim_chars(rest.as_slice());
    if value.len() == 0 || value[0] == '"' {
        let mut out: Vec<char> = Vec::new();
        crate::text::append(&mut out, name.as_slice());
        append_str(&mut out, ": ");
        append_debug(&mut out, value.as_slice());
        append_str(&mut out, " is not a number");
        return Err(ConfigError(string_of(out.as_slice())));
    }
    Ok((string_of(name.as_slice()), string_of(value.as_slice())))
}

/// Splits `{"name": value, ...}` into its members, values left as text.
/// Only what a stored config holds is accepted: string keys and bare
/// values, with whitespace allowed around them.
pub fn parse_flat_object(json: &str) -> (r: Result<Vec<(String, String)>, ConfigError>)
    ensures
        match r {
            Ok(v) => flat_object(json@) == Ok::<Seq<(Seq<char>, Seq<char>)>, Seq<char>>(pairs_view(v@)),
            Err(e) => flat_object(json@) == Err::<Seq<(Seq<char>, Seq<char>)>, Seq<char>>(e.0@),
        },
{
    let chars = chars_of(json);
    let t = trim_chars(chars.as_slice());
    let n = t.len();
    if !(n >= 2 && t[0] == '{' && t[n - 1] == '}') {
        let mut out: Vec<char> = Vec::new();
        append_str(&mut out, "not a JSON object");
        return Err(ConfigError(string_of(out.as_slice())));
    }
    let body = sub_chars(t.as_slice(), 1, n - 1);
    let trimmed_body = trim_chars(body.as_slice());
    if trimmed_body.len() == 0 {
        let none: Vec<(String, String)> = Vec::new();
        assert(pairs_view(none@) =~= Seq::<(Seq<char>, Seq<char>)>::empty());
        return Ok(none);
    }
    let pieces = split_at_commas(body.as_slice());
    let ghost ps = split_commas(body@);
    let mut members: Vec<(String, String)> = Vec::new();
    assert(pairs_view(members@) =~= Seq::<(Seq<char>, Seq<char>)>::empty());
    let mut i: usize = 0;
    while i < pieces.len()
        invariant
            i <= pieces@.len(),
            pieces_view(pieces@) == ps,
            ps == split_commas(body@),
            flat_object(json@) == members_upto(ps, ps.len() as int),
            members_upto(ps, i as int) == Ok::<Seq<(Seq<char>, Seq<char>)>, Seq<char>>(pairs_view(members@)),
        decreases pieces@.len() - i,
    {
        assert(ps[i as int] == pieces@[i as int]@);
        match read_member(pieces[i].as_slice()) {
            Ok(p) => {
                let ghost before = members@;
                members.push(p);
                proof {
                    assert(pairs_view(members@) =~= pairs_view(before).push((p.0@, p.1@)));
                }
            },
            Err(e) => {
                proof {
                    lemma_members_stop(ps, i as int + 1, ps.len() as int);
                }
                return Err(e);
            },
        }
        i += 1;
    }
    Ok(members)
}

/// Once a piece is not a member, its message stands.
proof fn lemma_members_stop(pieces: Seq<Seq<char>>, n: int, m: int)
    requires
        0 <= n <= m,
        members_upto(pieces, n) is Err,
    ensures
        members_upto(pieces, m) == members_upto(pieces, n),
    decreases m - n,
{
    if m > n {
        lemma_members_stop(pieces, n, m - 1);
    }
}

} // verus!
