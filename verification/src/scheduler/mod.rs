//! The roles a pattern is selected in for a prompt, how patterns relate
//! through their back-off chains, and how many exposures of the selected
//! patterns a word gives and a session achieved.

pub mod history;

pub use history::{PatternHistory, PatternView, TrainingHistory, TrainingView};

use vstd::prelude::*;
use vstd::pervasive::VecAdditionalExecFns;

use crate::prompt::{pattern_at, Slot};
use crate::session::{EventKind, Outcome, SessionState, SessionView};
use crate::text::{chars_equal, chars_of, ends_with, is_suffix, str_equal, string_of, sub_chars, texts_view};

verus! {

/// Why a pattern was recorded against a prompt.
#[derive(Debug, Clone, Copy, PartialEq, Eq, Structural)]
pub enum TargetRole {
    /// The prompt's targeted words are chosen to expose it.
    Target,
    /// A candidate withheld from targeting as a control, still appearing
    /// incidentally.
    Deferred,
    /// Chosen for its uncertainty rather than its rank.
    Explore,
}

/// The stable name each role is stored under.
pub open spec fn role_name(role: TargetRole) -> Seq<char> {
    match role {
        TargetRole::Target => "target"@,
        TargetRole::Deferred => "deferred"@,
        TargetRole::Explore => "explore"@,
    }
}

/// The role stored under a name, if any.
pub open spec fn role_named(name: Seq<char>) -> Option<TargetRole> {
    if name == "target"@ {
        Some(TargetRole::Target)
    } else if name == "deferred"@ {
        Some(TargetRole::Deferred)
    } else if name == "explore"@ {
        Some(TargetRole::Explore)
    } else {
        None
    }
}

/// Every role reads back from its stored name.
pub proof fn lemma_role_names_round_trip(role: TargetRole)
    ensures
        role_named(role_name(role)) == Some(role),
{
    reveal_strlit("target");
    reveal_strlit("deferred");
    reveal_strlit("explore");
    assert("target"@.len() == 6);
    assert("deferred"@.len() == 8);
    assert("explore"@.len() == 7);
}

impl TargetRole {
    /// The role's stable name, as stored. Never renamed.
    pub fn name(self) -> (r: &'static str)
        ensures
            r@ == role_name(self),
    {
        match self {
            TargetRole::Target => "target",
            TargetRole::Deferred => "deferred",
            TargetRole::Explore => "explore",
        }
    }

    /// The role with the given stored name, if this version knows it.
    pub fn from_name(name: &str) -> (r: Option<TargetRole>)
        ensures
            r == role_named(name@),
    {
        if str_equal(name, "target") {
            Some(TargetRole::Target)
        } else if str_equal(name, "deferred") {
            Some(TargetRole::Deferred)
        } else if str_equal(name, "explore") {
            Some(TargetRole::Explore)
        } else {
            None
        }
    }

    /// Whether the prompt's words were chosen to expose the pattern.
    pub fn is_practised(self) -> (r: bool)
        ensures
            r == (self == TargetRole::Target || self == TargetRole::Explore),
    {
        match self {
            TargetRole::Target | TargetRole::Explore => true,
            TargetRole::Deferred => false,
        }
    }
}

/// Two patterns are in one back-off chain: they differ and one ends the
/// other.
pub open spec fn in_one_chain(a: Seq<char>, b: Seq<char>) -> bool {
    a != b && (is_suffix(b, a) || is_suffix(a, b))
}

/// Whether one pattern is an ancestor or descendant of the other: patterns
/// back off by dropping their first character, so two are in one chain
/// when one is a suffix of the other. A pattern is not in a chain with
/// itself.
pub fn same_chain(a: &str, b: &str) -> (r: bool)
    ensures
        r == in_one_chain(a@, b@),
{
    let a = chars_of(a);
    let b = chars_of(b);
    !crate::text::chars_equal(a.as_slice(), b.as_slice()) && (ends_with(a.as_slice(), b.as_slice()) || ends_with(
        b.as_slice(),
        a.as_slice(),
    ))
}

/// Being in one chain is symmetric and never relates a pattern to itself.
pub proof fn lemma_same_chain_symmetric(a: Seq<char>, b: Seq<char>)
    ensures
        in_one_chain(a, b) == in_one_chain(b, a),
        !in_one_chain(a, a),
{
}

// --- Exposures -----------------------------------------------------------------

/// At most this many slots within one word count toward a pattern's dose.
pub const MAX_EXPOSURES_PER_WORD: usize = 2;

/// A chain's level from its `i`th character on.
pub open spec fn level_at(chain: Seq<char>, i: int) -> Seq<char> {
    chain.subrange(i, chain.len() as int)
}

/// The deepest practised level of a chain from its `i`th character on.
pub open spec fn deepest_practised_from(chain: Seq<char>, practised: Seq<Seq<char>>, i: int) -> Option<Seq<char>>
    decreases chain.len() - i,
{
    if i < 0 || i >= chain.len() {
        None
    } else if practised.contains(level_at(chain, i)) {
        Some(level_at(chain, i))
    } else {
        deepest_practised_from(chain, practised, i + 1)
    }
}

/// The deferred levels among a chain's first `n`, deepest first.
pub open spec fn deferred_levels(chain: Seq<char>, deferred: Seq<Seq<char>>, n: int) -> Seq<Seq<char>>
    decreases n,
{
    if n <= 0 {
        seq![]
    } else if deferred.contains(level_at(chain, n - 1)) {
        deferred_levels(chain, deferred, n - 1).push(level_at(chain, n - 1))
    } else {
        deferred_levels(chain, deferred, n - 1)
    }
}

/// What one chain exposes: its deepest practised level, if any, and every
/// deferred level.
pub open spec fn chain_exposures(chain: Seq<char>, practised: Seq<Seq<char>>, deferred: Seq<Seq<char>>) -> Seq<
    Seq<char>,
> {
    let head = match deepest_practised_from(chain, practised, 0) {
        Some(level) => seq![level],
        None => seq![],
    };
    head + deferred_levels(chain, deferred, chain.len() as int)
}

/// What the first `n` chains expose, in order.
pub open spec fn exposures_upto(
    chains: Seq<Seq<char>>,
    practised: Seq<Seq<char>>,
    deferred: Seq<Seq<char>>,
    n: int,
) -> Seq<Seq<char>>
    decreases n,
{
    if n <= 0 {
        seq![]
    } else {
        exposures_upto(chains, practised, deferred, n - 1) + chain_exposures(chains[n - 1], practised, deferred)
    }
}

/// How often `p` occurs.
pub open spec fn occurrences(s: Seq<Seq<char>>, p: Seq<char>) -> nat
    decreases s.len(),
{
    if s.len() == 0 {
        0
    } else if s.last() == p {
        occurrences(s.drop_last(), p) + 1
    } else {
        occurrences(s.drop_last(), p)
    }
}

/// A count held to the per-word limit.
pub open spec fn capped(n: nat) -> nat {
    if n < MAX_EXPOSURES_PER_WORD {
        n
    } else {
        MAX_EXPOSURES_PER_WORD as nat
    }
}

/// The count a tally holds for `p`: the sum of its entries for `p`.
pub open spec fn tally(v: Seq<(String, usize)>, p: Seq<char>) -> nat
    decreases v.len(),
{
    if v.len() == 0 {
        0
    } else if v.last().0@ == p {
        tally(v.drop_last(), p) + v.last().1 as nat
    } else {
        tally(v.drop_last(), p)
    }
}

/// A tally names each pattern once, with a count of one or two.
pub open spec fn tally_wf(v: Seq<(String, usize)>) -> bool {
    &&& forall|i: int, j: int| 0 <= i < j < v.len() ==> #[trigger] v[i].0@ != #[trigger] v[j].0@
    &&& forall|i: int| 0 <= i < v.len() ==> 1 <= #[trigger] v[i].1 <= MAX_EXPOSURES_PER_WORD
}

/// A pattern no entry names has no count.
proof fn lemma_tally_absent(v: Seq<(String, usize)>, p: Seq<char>)
    requires
        forall|i: int| 0 <= i < v.len() ==> #[trigger] v[i].0@ != p,
    ensures
        tally(v, p) == 0,
    decreases v.len(),
{
    if v.len() > 0 {
        lemma_tally_absent(v.drop_last(), p);
    }
}

/// In a well-formed tally, the one entry naming a pattern holds its count.
proof fn lemma_tally_at(v: Seq<(String, usize)>, k: int)
    requires
        tally_wf(v),
        0 <= k < v.len(),
    ensures
        tally(v, v[k].0@) == v[k].1,
    decreases v.len(),
{
    let p = v[k].0@;
    if k == v.len() - 1 {
        assert forall|i: int| 0 <= i < v.drop_last().len() implies #[trigger] v.drop_last()[i].0@ != p by {
            assert(v[i].0@ != v[k].0@);
        }
        lemma_tally_absent(v.drop_last(), p);
    } else {
        assert(v.last().0@ != p) by {
            assert(v[k].0@ != v[v.len() - 1].0@);
        }
        assert(tally_wf(v.drop_last()));
        lemma_tally_at(v.drop_last(), k);
    }
}

/// Replacing one entry changes only the count of the patterns it names.
proof fn lemma_tally_update(v: Seq<(String, usize)>, k: int, e: (String, usize), p: Seq<char>)
    requires
        0 <= k < v.len(),
    ensures
        tally(v.update(k, e), p) + (if v[k].0@ == p { v[k].1 as int } else { 0 }) == tally(v, p) + (if e.0@
            == p {
            e.1 as int
        } else {
            0
        }),
    decreases v.len(),
{
    let u = v.update(k, e);
    if k == v.len() - 1 {
        assert(u.drop_last() =~= v.drop_last());
    } else {
        assert(u.drop_last() =~= v.drop_last().update(k, e));
        lemma_tally_update(v.drop_last(), k, e, p);
    }
}

/// Whether some strings hold a text.
pub(crate) fn holds_text(set: &[String], text: &[char]) -> (r: bool)
    ensures
        r == texts_view(set@).contains(text@),
{
    let mut i: usize = 0;
    while i < set.len()
        invariant
            i <= set@.len(),
            forall|k: int| 0 <= k < i ==> texts_view(set@)[k] != text@,
        decreases set@.len() - i,
    {
        let item = chars_of(set[i].as_str());
        if chars_equal(item.as_slice(), text) {
            assert(texts_view(set@)[i as int] == text@);
            return true;
        }
        i += 1;
    }
    proof {
        if texts_view(set@).contains(text@) {
            let k = choose|k: int| 0 <= k < texts_view(set@).len() && texts_view(set@)[k] == text@;
            assert(texts_view(set@)[k] != text@);
        }
    }
    false
}

/// The deepest practised level of a chain.
fn deepest_practised(chain: &[char], practised: &[String]) -> (r: Option<Vec<char>>)
    ensures
        match r {
            Some(level) => deepest_practised_from(chain@, texts_view(practised@), 0) == Some(level@),
            None => deepest_practised_from(chain@, texts_view(practised@), 0) is None,
        },
{
    let mut i: usize = 0;
    while i < chain.len()
        invariant
            i <= chain@.len(),
            deepest_practised_from(chain@, texts_view(practised@), i as int) == deepest_practised_from(
                chain@,
                texts_view(practised@),
                0,
            ),
        decreases chain@.len() - i,
    {
        let level = sub_chars(chain, i, chain.len());
        if holds_text(practised, level.as_slice()) {
            return Some(level);
        }
        i += 1;
    }
    None
}

/// Where a tally names a level, if it does.
fn entry_of(in_word: &Vec<(String, usize)>, level: &[char]) -> (r: Option<usize>)
    ensures
        match r {
            Some(k) => k < in_word@.len() && in_word@[k as int].0@ == level@,
            None => forall|m: int| 0 <= m < in_word@.len() ==> #[trigger] in_word@[m].0@ != level@,
        },
{
    let mut k: usize = 0;
    while k < in_word.len()
        invariant
            k <= in_word@.len(),
            forall|m: int| 0 <= m < k ==> #[trigger] in_word@[m].0@ != level@,
        decreases in_word@.len() - k,
    {
        let key = chars_of(in_word[k].0.as_str());
        if chars_equal(key.as_slice(), level) {
            return Some(k);
        }
        k += 1;
    }
    None
}

/// Counts one more exposure of a level, up to the per-word limit.
fn expose(in_word: &mut Vec<(String, usize)>, level: &[char])
    requires
        tally_wf(old(in_word)@),
    ensures
        tally_wf(final(in_word)@),
        forall|p: Seq<char>|
            #![trigger tally(final(in_word)@, p)]
            tally(final(in_word)@, p) == if p == level@ {
                capped(tally(old(in_word)@, p) + 1)
            } else {
                tally(old(in_word)@, p)
            },
{
    let ghost before = in_word@;
    match entry_of(in_word, level) {
        Some(k) => {
            let count = in_word[k].1;
            proof {
                lemma_tally_at(before, k as int);
            }
            if count < MAX_EXPOSURES_PER_WORD {
                let entry = (string_of(level), count + 1);
                in_word.set(k, entry);
                proof {
                    assert forall|p: Seq<char>| #[trigger] tally(in_word@, p) == if p == level@ {
                        capped(tally(before, p) + 1)
                    } else {
                        tally(before, p)
                    } by {
                        lemma_tally_update(before, k as int, entry, p);
                    }
                    assert forall|i: int, j: int| 0 <= i < j < in_word@.len() implies #[trigger] in_word@[i].0@
                        != #[trigger] in_word@[j].0@ by {
                        assert(before[i].0@ != before[j].0@);
                    }
                }
            }
        },
        None => {
            let entry = (string_of(level), 1usize);
            in_word.push(entry);
            proof {
                lemma_tally_absent(before, level@);
                assert(in_word@.drop_last() =~= before);
                assert forall|p: Seq<char>| #[trigger] tally(in_word@, p) == if p == level@ {
                    capped(tally(before, p) + 1)
                } else {
                    tally(before, p)
                } by {
                }
                assert forall|i: int, j: int| 0 <= i < j < in_word@.len() implies #[trigger] in_word@[i].0@
                    != #[trigger] in_word@[j].0@ by {
                    if j == before.len() {
                        assert(before[i].0@ != level@);
                    }
                }
            }
        },
    }
}

/// How many exposures of the selected patterns one word gives, from the
/// chains ending at each of its slots. A chain exposes only its deepest
/// practised level, and every deferred level; at most two slots within
/// the word count toward one pattern. Each exposed pattern is named once,
/// in the order it was first exposed.
pub fn exposures_in_word(chains: &[String], practised: &[String], deferred: &[String]) -> (r: Vec<(String, usize)>)
    ensures
        tally_wf(r@),
        forall|p: Seq<char>|
            #![trigger tally(r@, p)]
            tally(r@, p) == capped(
                occurrences(
                    exposures_upto(
                        texts_view(chains@),
                        texts_view(practised@),
                        texts_view(deferred@),
                        chains@.len() as int,
                    ),
                    p,
                ),
            ),
{
    let ghost cs = texts_view(chains@);
    let ghost ps = texts_view(practised@);
    let ghost ds = texts_view(deferred@);
    let mut in_word: Vec<(String, usize)> = Vec::new();
    let ghost mut seen: Seq<Seq<char>> = seq![];
    let mut k: usize = 0;
    while k < chains.len()
        invariant
            k <= chains@.len(),
            cs == texts_view(chains@),
            ps == texts_view(practised@),
            ds == texts_view(deferred@),
            seen == exposures_upto(cs, ps, ds, k as int),
            tally_wf(in_word@),
            forall|p: Seq<char>| #![trigger tally(in_word@, p)] tally(in_word@, p) == capped(occurrences(seen, p)),
        decreases chains@.len() - k,
    {
        let chain = chains_of_string(&chains[k]);
        let ghost start = seen;
        match deepest_practised(chain.as_slice(), practised) {
            Some(level) => {
                expose(&mut in_word, level.as_slice());
                proof {
                    lemma_seen_push(seen, level@);
                    seen = seen.push(level@);
                }
            },
            None => {},
        }
        let ghost head = seen;
        let mut i: usize = 0;
        while i < chain.len()
            invariant
                i <= chain@.len(),
                chain@ == cs[k as int],
                k < chains@.len(),
                cs == texts_view(chains@),
                ps == texts_view(practised@),
                ds == texts_view(deferred@),
                seen == head + deferred_levels(chain@, ds, i as int),
                tally_wf(in_word@),
                forall|p: Seq<char>| #![trigger tally(in_word@, p)] tally(in_word@, p) == capped(occurrences(seen, p)),
            decreases chain@.len() - i,
        {
            let level = sub_chars(chain.as_slice(), i, chain.len());
            if holds_text(deferred, level.as_slice()) {
                expose(&mut in_word, level.as_slice());
                proof {
                    lemma_seen_push(seen, level@);
                    seen = seen.push(level@);
                    assert(seen =~= head + deferred_levels(chain@, ds, i + 1));
                }
            }
            i += 1;
        }
        proof {
            let first = match deepest_practised_from(chain@, ps, 0) {
                Some(l) => seq![l],
                None => seq![],
            };
            assert(head =~= start + first);
            assert(seen =~= exposures_upto(cs, ps, ds, k + 1));
        }
        k += 1;
    }
    in_word
}

/// The characters of a chain.
fn chains_of_string(s: &String) -> (r: Vec<char>)
    ensures
        r@ == s@,
{
    chars_of(s.as_str())
}

/// One more occurrence counts once more for its pattern, and for no other;
/// held to the limit, that is one more exposure up to it.
proof fn lemma_seen_push(seen: Seq<Seq<char>>, level: Seq<char>)
    ensures
        forall|p: Seq<char>|
            #![trigger occurrences(seen.push(level), p)]
            occurrences(seen.push(level), p) == occurrences(seen, p) + (if p == level { 1nat } else { 0nat }),
        forall|p: Seq<char>|
            #![trigger occurrences(seen.push(level), p)]
            p == level ==> capped(occurrences(seen.push(level), p)) == capped(capped(occurrences(seen, p)) + 1),
{
    assert(seen.push(level).drop_last() =~= seen);
}


/// A pattern recorded against a prompt, with what the model believed about
/// it at selection: its weakness mean and uncertainty and its priority, in
/// whatever figures the model keeps them.
#[derive(Debug, Clone, PartialEq)]
pub struct SelectedTarget<W> {
    pub pattern: String,
    pub role: TargetRole,
    pub weakness_mean: W,
    pub weakness_sd: W,
    pub priority: W,
    /// Exposures the prompt should give it; zero for a deferred candidate.
    pub planned_dose: usize,
}

/// A selected target together with the exposures the session actually
/// typed.
#[derive(Debug, Clone, PartialEq)]
pub struct TrainingEvent<W> {
    pub target: SelectedTarget<W>,
    pub achieved_dose: usize,
}

/// A copy of a selected target.
pub fn copy_target<W: Copy>(t: &SelectedTarget<W>) -> (r: SelectedTarget<W>)
    ensures
        r == *t,
{
    SelectedTarget {
        pattern: t.pattern.clone(),
        role: t.role,
        weakness_mean: t.weakness_mean,
        weakness_sd: t.weakness_sd,
        priority: t.priority,
        planned_dose: t.planned_dose,
    }
}

/// The patterns of the targets whose role is practised (targets and
/// exploration targets), or whose role is deferred, in target order.
pub open spec fn patterns_in<W>(targets: Seq<SelectedTarget<W>>, practised: bool) -> Seq<Seq<char>>
    decreases targets.len(),
{
    if targets.len() == 0 {
        seq![]
    } else {
        let pattern = targets.last().pattern;
        let role = targets.last().role;
        let wanted = if practised {
            role == TargetRole::Target || role == TargetRole::Explore
        } else {
            role == TargetRole::Deferred
        };
        if wanted {
            patterns_in(targets.drop_last(), practised).push(pattern@)
        } else {
            patterns_in(targets.drop_last(), practised)
        }
    }
}

/// The patterns of the practised targets, or of the deferred ones.
fn patterns_where<W>(targets: &[SelectedTarget<W>], practised: bool) -> (r: Vec<String>)
    ensures
        texts_view(r@) == patterns_in(targets@, practised),
{
    let mut out: Vec<String> = Vec::new();
    let mut i: usize = 0;
    while i < targets.len()
        invariant
            i <= targets@.len(),
            texts_view(out@) == patterns_in(targets@.take(i as int), practised),
        decreases targets@.len() - i,
    {
        let role = targets[i].role;
        let wanted = if practised {
            role.is_practised()
        } else {
            role == TargetRole::Deferred
        };
        let ghost before = out@;
        if wanted {
            out.push(targets[i].pattern.clone());
        }
        proof {
            assert(targets@.take(i + 1).drop_last() =~= targets@.take(i as int));
            assert(targets@.take(i + 1).last() == targets@[i as int]);
            if wanted {
                assert(texts_view(out@) =~= texts_view(before).push(targets@[i as int].pattern@));
            }
        }
        i += 1;
    }
    proof {
        assert(targets@.take(targets@.len() as int) =~= targets@);
    }
    out
}

/// The chain ending at slot `k + 1` of a word standing alone, read as
/// space-padded text: up to three characters, with only the one space
/// before the first character.
pub open spec fn word_chain(word: Seq<char>, k: int) -> Seq<char> {
    (seq![' '] + word + seq![' ']).subrange(if k >= 1 { k - 1 } else { 0 }, k + 2)
}

/// The chain ending at each slot of a word standing alone, the following
/// space a slot too.
pub open spec fn word_chains(word: Seq<char>) -> Seq<Seq<char>> {
    Seq::new(word.len() + 1, |k: int| word_chain(word, k))
}

/// The chain ending at each slot of a word standing alone: the word read as
/// space-padded text, so its first character follows a space and its last
/// is followed by one, with the following space itself a slot.
pub struct WordChains {
    chains: Vec<String>,
}

impl View for WordChains {
    type V = Seq<Seq<char>>;

    closed spec fn view(&self) -> Seq<Seq<char>> {
        texts_view(self.chains@)
    }
}

impl WordChains {
    pub fn new(word: &str) -> (r: WordChains)
        requires
            word@.len() + 3 <= usize::MAX,
        ensures
            r@ == word_chains(word@),
    {
        let chars = chars_of(word);
        let mut padded: Vec<char> = Vec::new();
        padded.push(' ');
        crate::text::append(&mut padded, chars.as_slice());
        padded.push(' ');
        let ghost p = seq![' '] + word@ + seq![' '];
        assert(padded@ =~= p);
        let mut chains: Vec<String> = Vec::new();
        let mut k: usize = 0;
        while k < chars.len() + 1
            invariant
                chars@ == word@,
                padded@ == p,
                p == seq![' '] + word@ + seq![' '],
                word@.len() + 3 <= usize::MAX,
                k <= word@.len() + 1,
                texts_view(chains@) == word_chains(word@).take(k as int),
            decreases word@.len() + 1 - k,
        {
            let from = if k >= 1 {
                k - 1
            } else {
                0
            };
            let chain = sub_chars(padded.as_slice(), from, k + 2);
            let ghost before = chains@;
            chains.push(string_of(chain.as_slice()));
            proof {
                assert(texts_view(before).len() == k);
                assert(before.len() == k);
                assert(chains@.len() == k + 1);
                assert(texts_view(chains@).len() == k + 1);
                assert(chain@ == word_chain(word@, k as int));
                assert(texts_view(chains@)[k as int] == word_chain(word@, k as int));
                assert forall|m: int| 0 <= m < k implies texts_view(chains@)[m] == word_chains(word@)[m] by {
                    assert(texts_view(chains@)[m] == texts_view(before)[m]);
                    assert(texts_view(before)[m] == word_chains(word@).take(k as int)[m]);
                }
                assert(texts_view(chains@) =~= word_chains(word@).take(k + 1));
            }
            k += 1;
        }
        proof {
            assert(word_chains(word@).take(word@.len() + 1int) =~= word_chains(word@));
        }
        WordChains { chains }
    }

    /// The chains, one per slot in order.
    pub fn chains(&self) -> (r: &[String])
        ensures
            texts_view(r@) == self@,
    {
        self.chains.as_slice()
    }
}

/// How many exposures of each practised pattern (target or exploration
/// target) one word gives on its own, read as space-padded text with its
/// following space as a slot: what a word is worth when it is chosen for a
/// prompt. The same rules as [`achieved_doses`]: a slot exposes only the
/// deepest practised pattern in its chain and at most two slots count
/// toward one pattern. Patterns with no exposure are absent.
pub fn word_exposures<W>(word: &str, targets: &[SelectedTarget<W>]) -> (r: Vec<(String, usize)>)
    requires
        word@.len() + 3 <= usize::MAX,
    ensures
        tally_wf(r@),
        forall|p: Seq<char>|
            #![trigger tally(r@, p)]
            tally(r@, p) == capped(
                occurrences(
                    exposures_upto(word_chains(word@), patterns_in(targets@, true), seq![], word@.len() + 1int),
                    p,
                ),
            ),
{
    let practised = patterns_where(targets, true);
    let none: Vec<String> = Vec::new();
    assert(texts_view(none@) =~= Seq::<Seq<char>>::empty());
    let chains = WordChains::new(word);
    let slots = chains.chains();
    assert(slots@.len() == word@.len() + 1) by {
        assert(texts_view(slots@).len() == slots@.len());
    }
    exposures_in_word(slots, practised.as_slice(), none.as_slice())
}

/// A tally's count for a pattern.
fn count_of(in_word: &Vec<(String, usize)>, pattern: &String) -> (r: usize)
    requires
        tally_wf(in_word@),
    ensures
        r == tally(in_word@, pattern@),
        r <= MAX_EXPOSURES_PER_WORD,
{
    let chars = chars_of(pattern.as_str());
    match entry_of(in_word, chars.as_slice()) {
        Some(k) => {
            proof {
                lemma_tally_at(in_word@, k as int);
            }
            in_word[k].1
        },
        None => {
            proof {
                lemma_tally_absent(in_word@, pattern@);
            }
            0
        },
    }
}

/// Whether the session's last event was a space: the final word's
/// following space was typed.
pub open spec fn ended_on_space(v: SessionView) -> bool {
    v.events.len() > 0 && v.events.last().kind == EventKind::Space
}

/// The words of a session that were submitted.
pub open spec fn completed_words(v: SessionView) -> int {
    if v.outcome == Some(Outcome::Completed) {
        v.word_count as int
    } else {
        v.current_word as int
    }
}

/// The chains ending at each slot of a submitted word of the session: each
/// character, and the following space where it was typed or another word
/// follows.
pub open spec fn slot_chains(v: SessionView, w: int) -> Seq<Seq<char>> {
    let spaces = if w + 1 < v.word_count || ended_on_space(v) {
        1int
    } else {
        0int
    };
    Seq::new(
        (v.prompt[w].len() + spaces) as nat,
        |position: int| pattern_at(v.prompt, Slot { word: w as usize, position: position as usize }),
    )
}

/// The exposures of a pattern that the first `n` words of a session gave.
pub open spec fn session_dose(
    v: SessionView,
    practised: Seq<Seq<char>>,
    deferred: Seq<Seq<char>>,
    n: int,
    p: Seq<char>,
) -> nat
    decreases n,
{
    if n <= 0 {
        0
    } else {
        session_dose(v, practised, deferred, n - 1, p) + capped(
            occurrences(
                exposures_upto(slot_chains(v, n - 1), practised, deferred, slot_chains(v, n - 1).len() as int),
                p,
            ),
        )
    }
}

/// How many exposures each selected pattern actually received over the
/// words the user submitted, one count per target in order. A slot exposes
/// at most one practised pattern (target or exploration target): the
/// deepest in its back-off chain. A deferred candidate is not practised, so
/// its incidental exposures are counted independently: every slot whose
/// chain contains it. In both cases at most two slots within one word
/// count toward a pattern's dose. A word's following space is a slot when
/// the space was typed.
pub fn achieved_doses<W: Copy>(state: &SessionState, targets: &[SelectedTarget<W>]) -> (r: Vec<TrainingEvent<W>>)
    requires
        state.wf(),
        state@.word_count <= usize::MAX / 2,
    ensures
        r@.len() == targets@.len(),
        forall|i: int| 0 <= i < targets@.len() ==> (#[trigger] r@[i]).target == targets@[i],
        forall|i: int|
            0 <= i < targets@.len() ==> (#[trigger] r@[i]).achieved_dose == session_dose(
                state@,
                patterns_in(targets@, true),
                patterns_in(targets@, false),
                completed_words(state@),
                targets@[i].pattern@,
            ),
{
    let doses = doses_of(state, targets);
    let mut events: Vec<TrainingEvent<W>> = Vec::new();
    let mut i: usize = 0;
    while i < targets.len()
        invariant
            i <= targets@.len(),
            doses@.len() == targets@.len(),
            events@.len() == i,
            forall|m: int| 0 <= m < i ==> (#[trigger] events@[m]).target == targets@[m],
            forall|m: int| 0 <= m < i ==> (#[trigger] events@[m]).achieved_dose == doses@[m],
        decreases targets@.len() - i,
    {
        events.push(TrainingEvent { target: copy_target(&targets[i]), achieved_dose: doses[i] });
        i += 1;
    }
    events
}

/// The exposures each selected pattern received over the submitted words,
/// one count per target in order.
fn doses_of<W>(state: &SessionState, targets: &[SelectedTarget<W>]) -> (r: Vec<usize>)
    requires
        state.wf(),
        state@.word_count <= usize::MAX / 2,
    ensures
        r@.len() == targets@.len(),
        forall|i: int|
            0 <= i < targets@.len() ==> #[trigger] r@[i] == session_dose(
                state@,
                patterns_in(targets@, true),
                patterns_in(targets@, false),
                completed_words(state@),
                targets@[i].pattern@,
            ),
{
    proof {
        state.lemma_wf();
    }
    let practised = patterns_where(targets, true);
    let deferred = patterns_where(targets, false);
    let ghost v = state@;
    let ghost ps = patterns_in(targets@, true);
    let ghost ds = patterns_in(targets@, false);
    let prompt = state.prompt();
    proof {
        prompt.lemma_wf();
    }
    let word_count = state.word_count();
    let events = state.events();
    let ended = events.len() > 0 && events[events.len() - 1].kind == EventKind::Space;
    let completed = state.words_completed();
    let mut doses: Vec<usize> = Vec::new();
    let mut i: usize = 0;
    while i < targets.len()
        invariant
            i <= targets@.len(),
            doses@.len() == i,
            forall|j: int| 0 <= j < i ==> #[trigger] doses@[j] == 0,
        decreases targets@.len() - i,
    {
        doses.push(0);
        i += 1;
    }
    let mut w: usize = 0;
    while w < completed
        invariant
            v == state@,
            view_wf_bounds(v),
            prompt.wf(),
            prompt@ == v.prompt,
            word_count == v.word_count,
            ended == ended_on_space(v),
            completed == completed_words(v),
            completed <= word_count,
            word_count <= usize::MAX / 2,
            w <= completed,
            texts_view(practised@) == ps,
            texts_view(deferred@) == ds,
            ps == patterns_in(targets@, true),
            ds == patterns_in(targets@, false),
            doses@.len() == targets@.len(),
            forall|j: int|
                0 <= j < targets@.len() ==> #[trigger] doses@[j] == session_dose(v, ps, ds, w as int, targets@[j].pattern@),
            forall|j: int| 0 <= j < targets@.len() ==> #[trigger] doses@[j] <= 2 * w,
        decreases completed - w,
    {
        let len = prompt.word_len(w);
        proof {
            prompt.lemma_wf();
            assert(v.prompt[w as int].len() + 2 <= crate::prompt::padded(v.prompt).len());
        }
        let slots = if w + 1 < word_count || ended {
            len + 1
        } else {
            len
        };
        let mut chains: Vec<String> = Vec::new();
        let mut position: usize = 0;
        while position < slots
            invariant
                prompt.wf(),
                prompt@ == v.prompt,
                w < v.prompt.len(),
                slots <= v.prompt[w as int].len() + 1,
                slots == slot_chains(v, w as int).len(),
                word_count == v.word_count,
                ended == ended_on_space(v),
                position <= slots,
                texts_view(chains@) == slot_chains(v, w as int).take(position as int),
            decreases slots - position,
        {
            let chain = prompt.pattern_ending_at(Slot { word: w, position });
            let ghost before = chains@;
            chains.push(chain);
            proof {
                let expected = slot_chains(v, w as int);
                assert(texts_view(before).len() == position);
                assert(before.len() == position);
                assert(chains@.len() == position + 1);
                assert(texts_view(chains@).len() == position + 1);
                assert(texts_view(chains@)[position as int] == expected[position as int]);
                assert forall|m: int| 0 <= m < position implies texts_view(chains@)[m] == expected[m] by {
                    assert(texts_view(chains@)[m] == texts_view(before)[m]);
                    assert(texts_view(before)[m] == expected.take(position as int)[m]);
                }
                assert(texts_view(chains@) =~= expected.take(position + 1));
            }
            position += 1;
        }
        proof {
            assert(slot_chains(v, w as int).take(slots as int) =~= slot_chains(v, w as int));
        }
        let in_word = exposures_in_word(chains.as_slice(), practised.as_slice(), deferred.as_slice());
        let mut j: usize = 0;
        while j < targets.len()
            invariant
                tally_wf(in_word@),
                forall|p: Seq<char>|
                    #![trigger tally(in_word@, p)]
                    tally(in_word@, p) == capped(
                        occurrences(exposures_upto(slot_chains(v, w as int), ps, ds, slot_chains(v, w as int).len() as int), p),
                    ),
                w < completed,
                completed <= word_count,
                word_count <= usize::MAX / 2,
                j <= targets@.len(),
                doses@.len() == targets@.len(),
                forall|m: int|
                    0 <= m < j ==> #[trigger] doses@[m] == session_dose(v, ps, ds, w + 1, targets@[m].pattern@),
                forall|m: int| 0 <= m < j ==> #[trigger] doses@[m] <= 2 * (w + 1),
                forall|m: int|
                    j <= m < targets@.len() ==> #[trigger] doses@[m] == session_dose(v, ps, ds, w as int, targets@[m].pattern@),
                forall|m: int| j <= m < targets@.len() ==> #[trigger] doses@[m] <= 2 * w,
            decreases targets@.len() - j,
        {
            let add = count_of(&in_word, &targets[j].pattern);
            let total = doses[j] + add;
            doses.set(j, total);
            j += 1;
        }
        w += 1;
    }
    doses
}

/// The bounds of a well-formed session that counting its doses relies on.
pub open spec fn view_wf_bounds(v: SessionView) -> bool {
    &&& v.word_count <= v.prompt.len()
    &&& v.current_word < v.word_count
}

} // verus!
