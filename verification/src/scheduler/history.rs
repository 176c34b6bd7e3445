//! The training events of a profile's sessions in order: the deferral
//! windows currently open, each pattern's record of practice, and the
//! words each session showed as targeted.

use vstd::prelude::*;

use crate::scheduler::{holds_text, TargetRole, TrainingEvent};
use crate::text::{
    chars_equal, chars_less, chars_of, lemma_text_less_transitive, lemma_text_order, text_less,
    texts_view,
};

verus! {

/// What has happened to one pattern over a profile's sessions.
#[derive(Debug, Clone, PartialEq)]
pub struct PatternHistory<W> {
    /// Sessions still to come in which the pattern stays out of candidacy.
    pub deferral_remaining: usize,
    /// Sessions in which it was a target or exploration target.
    pub sessions_practised: usize,
    /// Exposures typed across every session it was practised in.
    pub achieved_dose: usize,
    /// Its weakness mean at selection in each session it was practised
    /// in, in order.
    pub practised_means: Vec<W>,
    /// The ordinal (from one) of the last session it was practised in.
    pub last_practised: Option<usize>,
}

/// What a pattern's history holds.
pub struct PatternView<W> {
    pub deferral_remaining: usize,
    pub sessions_practised: usize,
    pub achieved_dose: usize,
    pub practised_means: Seq<W>,
    pub last_practised: Option<usize>,
}

impl<W> View for PatternHistory<W> {
    type V = PatternView<W>;

    open spec fn view(&self) -> PatternView<W> {
        PatternView {
            deferral_remaining: self.deferral_remaining,
            sessions_practised: self.sessions_practised,
            achieved_dose: self.achieved_dose,
            practised_means: self.practised_means@,
            last_practised: self.last_practised,
        }
    }
}

/// The history of a pattern never selected.
pub open spec fn unrecorded<W>() -> PatternView<W> {
    PatternView {
        deferral_remaining: 0,
        sessions_practised: 0,
        achieved_dose: 0,
        practised_means: Seq::empty(),
        last_practised: None,
    }
}

/// A pattern's history after one event of session `session`: a deferral
/// opens a window of `window` sessions unless one is open; practice counts
/// the session, its dose, and the weakness at selection.
pub open spec fn event_on<W>(h: PatternView<W>, e: TrainingEvent<W>, session: int, window: usize) -> PatternView<W> {
    if e.target.role == TargetRole::Deferred {
        if h.deferral_remaining == 0 {
            PatternView {
                deferral_remaining: window,
                sessions_practised: h.sessions_practised,
                achieved_dose: h.achieved_dose,
                practised_means: h.practised_means,
                last_practised: h.last_practised,
            }
        } else {
            h
        }
    } else {
        PatternView {
            deferral_remaining: h.deferral_remaining,
            sessions_practised: (h.sessions_practised + 1) as usize,
            achieved_dose: (h.achieved_dose + e.achieved_dose) as usize,
            practised_means: h.practised_means.push(e.target.weakness_mean),
            last_practised: Some(session as usize),
        }
    }
}

/// A pattern's history in a map of histories.
pub open spec fn history_of<W>(m: Map<Seq<char>, PatternView<W>>, p: Seq<char>) -> PatternView<W> {
    if m.contains_key(p) {
        m[p]
    } else {
        unrecorded()
    }
}

/// The histories after the first `n` events of session `session`.
pub open spec fn events_applied<W>(
    m: Map<Seq<char>, PatternView<W>>,
    events: Seq<TrainingEvent<W>>,
    n: int,
    session: int,
    window: usize,
) -> Map<Seq<char>, PatternView<W>>
    decreases n,
{
    if n <= 0 {
        m
    } else {
        let before = events_applied(m, events, n - 1, session, window);
        let p = events[n - 1].target.pattern@;
        before.insert(p, event_on(history_of(before, p), events[n - 1], session, window))
    }
}

/// A history one session on: an open window runs down by one.
pub open spec fn run_down<W>(h: PatternView<W>) -> PatternView<W> {
    PatternView {
        deferral_remaining: if h.deferral_remaining > 0 {
            (h.deferral_remaining - 1) as usize
        } else {
            0
        },
        sessions_practised: h.sessions_practised,
        achieved_dose: h.achieved_dose,
        practised_means: h.practised_means,
        last_practised: h.last_practised,
    }
}

/// Every history one session on.
pub open spec fn ran_down<W>(m: Map<Seq<char>, PatternView<W>>) -> Map<Seq<char>, PatternView<W>> {
    Map::new(|k: Seq<char>| m.contains_key(k), |k: Seq<char>| run_down(m[k]))
}

/// The counts an event adds to fit.
pub open spec fn event_fits<W>(h: PatternView<W>, e: TrainingEvent<W>) -> bool {
    e.target.role != TargetRole::Deferred ==> h.sessions_practised + 1 <= usize::MAX && h.achieved_dose
        + e.achieved_dose <= usize::MAX
}

/// The counts every event of a session adds fit.
pub open spec fn events_fit<W>(
    m: Map<Seq<char>, PatternView<W>>,
    events: Seq<TrainingEvent<W>>,
    session: int,
    window: usize,
) -> bool {
    forall|n: int|
        0 <= n < events.len() ==> event_fits(
            history_of(events_applied(m, events, n, session, window), events[n].target.pattern@),
            #[trigger] events[n],
        )
}

/// What a training history holds: the sessions recorded, each pattern's
/// history, and the words each session showed as targeted.
pub struct TrainingView<W> {
    pub sessions: nat,
    pub patterns: Map<Seq<char>, PatternView<W>>,
    pub targeted_words: Seq<Seq<Seq<char>>>,
}

/// A history's view is consistent: one entry of targeted words per
/// session, and no pattern practised in a session not yet recorded.
pub open spec fn training_wf<W>(v: TrainingView<W>) -> bool {
    &&& v.targeted_words.len() == v.sessions
    &&& forall|k: Seq<char>|
        #[trigger] v.patterns.contains_key(k) ==> match v.patterns[k].last_practised {
            Some(last) => 1 <= last <= v.sessions,
            None => true,
        }
}

/// The training events of a profile's sessions in order.
#[derive(Debug, Clone, PartialEq)]
pub struct TrainingHistory<W> {
    sessions: usize,
    /// Every pattern ever selected with its history, in pattern order.
    patterns: Vec<(String, PatternHistory<W>)>,
    /// One entry per session: the words shown as targeted in it.
    targeted_words: Vec<Vec<String>>,
}

/// The histories some entries hold, by pattern.
pub open spec fn entries_map<W>(v: Seq<(String, PatternHistory<W>)>) -> Map<Seq<char>, PatternView<W>>
    decreases v.len(),
{
    if v.len() == 0 {
        Map::empty()
    } else {
        entries_map(v.drop_last()).insert(v.last().0@, v.last().1@)
    }
}

/// Entries in strictly increasing pattern order.
pub open spec fn keys_sorted<W>(v: Seq<(String, PatternHistory<W>)>) -> bool {
    forall|i: int, j: int| 0 <= i < j < v.len() ==> text_less(#[trigger] v[i].0@, #[trigger] v[j].0@)
}

/// Every recorded session's targeted words.
pub open spec fn words_view(v: Seq<Vec<String>>) -> Seq<Seq<Seq<char>>> {
    Seq::new(v.len(), |i: int| texts_view(v[i]@))
}

impl<W> View for TrainingHistory<W> {
    type V = TrainingView<W>;

    closed spec fn view(&self) -> TrainingView<W> {
        TrainingView {
            sessions: self.sessions as nat,
            patterns: entries_map(self.patterns@),
            targeted_words: words_view(self.targeted_words@),
        }
    }
}

// --- Entries as a map ---------------------------------------------------------------

/// In sorted entries, a pattern has a history exactly where an entry names
/// it, and the entry holds it.
proof fn lemma_entries_map<W>(v: Seq<(String, PatternHistory<W>)>)
    requires
        keys_sorted(v),
    ensures
        forall|i: int| 0 <= i < v.len() ==> #[trigger] entries_map(v).contains_key(v[i].0@),
        forall|i: int| 0 <= i < v.len() ==> #[trigger] entries_map(v)[v[i].0@] == v[i].1@,
        forall|k: Seq<char>|
            #[trigger] entries_map(v).contains_key(k) ==> exists|i: int| 0 <= i < v.len() && v[i].0@ == k,
    decreases v.len(),
{
    if v.len() > 0 {
        let d = v.drop_last();
        assert(keys_sorted(d));
        lemma_entries_map(d);
        let last = v.len() - 1;
        assert(entries_map(v) == entries_map(d).insert(v[last].0@, v[last].1@));
        assert forall|i: int| 0 <= i < v.len() implies #[trigger] entries_map(v)[v[i].0@] == v[i].1@ by {
            if i < last {
                assert(text_less(v[i].0@, v[last].0@));
                lemma_text_order(v[i].0@, v[last].0@);
                assert(d[i] == v[i]);
                assert(entries_map(d)[d[i].0@] == d[i].1@);
            }
        }
        assert forall|i: int| 0 <= i < v.len() implies #[trigger] entries_map(v).contains_key(v[i].0@) by {
            if i < last {
                assert(d[i] == v[i]);
                assert(entries_map(d).contains_key(d[i].0@));
            }
        }
        assert forall|k: Seq<char>| #[trigger] entries_map(v).contains_key(k) implies exists|i: int|
            0 <= i < v.len() && v[i].0@ == k by {
            if k != v[last].0@ {
                let i = choose|i: int| 0 <= i < d.len() && d[i].0@ == k;
                assert(v[i] == d[i]);
            }
        }
    }
}

/// A pattern no entry names has no history.
proof fn lemma_entries_absent<W>(v: Seq<(String, PatternHistory<W>)>, k: Seq<char>)
    requires
        keys_sorted(v),
        forall|i: int| 0 <= i < v.len() ==> #[trigger] v[i].0@ != k,
    ensures
        !entries_map(v).contains_key(k),
{
    lemma_entries_map(v);
}

/// Replacing an entry's history, its pattern kept, replaces it in the map.
proof fn lemma_entries_update<W>(v: Seq<(String, PatternHistory<W>)>, j: int, e: (String, PatternHistory<W>))
    requires
        keys_sorted(v),
        0 <= j < v.len(),
        e.0@ == v[j].0@,
    ensures
        keys_sorted(v.update(j, e)),
        entries_map(v.update(j, e)) == entries_map(v).insert(e.0@, e.1@),
{
    let u = v.update(j, e);
    assert(keys_sorted(u)) by {
        assert forall|a: int, b: int| 0 <= a < b < u.len() implies text_less(#[trigger] u[a].0@, #[trigger] u[b].0@) by {
            assert(text_less(v[a].0@, v[b].0@));
        }
    }
    lemma_entries_map(v);
    lemma_entries_map(u);
    let m = entries_map(v).insert(e.0@, e.1@);
    assert forall|k: Seq<char>| #[trigger] entries_map(u).contains_key(k) <==> m.contains_key(k) by {
        if entries_map(u).contains_key(k) {
            let i = choose|i: int| 0 <= i < u.len() && u[i].0@ == k;
            if i != j {
                assert(v[i] == u[i]);
            }
        }
        if m.contains_key(k) && k != e.0@ {
            let i = choose|i: int| 0 <= i < v.len() && v[i].0@ == k;
            if i != j {
                assert(u[i] == v[i]);
            } else {
                assert(false);
            }
        }
        if k == e.0@ {
            assert(u[j].0@ == k);
        }
    }
    assert forall|k: Seq<char>| #[trigger] entries_map(u).contains_key(k) implies entries_map(u)[k] == m[k] by {
        let i = choose|i: int| 0 <= i < u.len() && u[i].0@ == k;
        if i != j {
            assert(u[i] == v[i]);
            if k == e.0@ {
                lemma_text_order(v[i].0@, v[j].0@);
                if i < j {
                    assert(text_less(v[i].0@, v[j].0@));
                } else {
                    assert(text_less(v[j].0@, v[i].0@));
                }
            }
        }
    }
    assert(entries_map(u) =~= m);
}

/// Inserting an entry for a new pattern where the order puts it adds it to
/// the map.
proof fn lemma_entries_insert<W>(v: Seq<(String, PatternHistory<W>)>, j: int, e: (String, PatternHistory<W>))
    requires
        keys_sorted(v),
        0 <= j <= v.len(),
        forall|i: int| 0 <= i < j ==> text_less(#[trigger] v[i].0@, e.0@),
        forall|i: int| j <= i < v.len() ==> text_less(e.0@, #[trigger] v[i].0@),
    ensures
        keys_sorted(v.insert(j, e)),
        entries_map(v.insert(j, e)) == entries_map(v).insert(e.0@, e.1@),
        !entries_map(v).contains_key(e.0@),
{
    let u = v.insert(j, e);
    assert(keys_sorted(u)) by {
        assert forall|a: int, b: int| 0 <= a < b < u.len() implies text_less(#[trigger] u[a].0@, #[trigger] u[b].0@) by {
            if b < j {
                assert(text_less(v[a].0@, v[b].0@));
            } else if b == j {
                assert(u[a] == v[a]);
            } else if a < j {
                assert(u[b] == v[b - 1]);
                assert(text_less(v[a].0@, e.0@));
                assert(text_less(e.0@, v[b - 1].0@));
                lemma_text_less_transitive(v[a].0@, e.0@, v[b - 1].0@, 0);
            } else if a == j {
                assert(u[b] == v[b - 1]);
            } else {
                assert(text_less(v[a - 1].0@, v[b - 1].0@));
            }
        }
    }
    assert forall|i: int| 0 <= i < v.len() implies #[trigger] v[i].0@ != e.0@ by {
        lemma_text_order(v[i].0@, e.0@);
    }
    lemma_entries_absent(v, e.0@);
    lemma_entries_map(v);
    lemma_entries_map(u);
    let m = entries_map(v).insert(e.0@, e.1@);
    assert forall|k: Seq<char>| #[trigger] entries_map(u).contains_key(k) <==> m.contains_key(k) by {
        if entries_map(u).contains_key(k) {
            let i = choose|i: int| 0 <= i < u.len() && u[i].0@ == k;
            if i < j {
                assert(u[i] == v[i]);
            } else if i > j {
                assert(u[i] == v[i - 1]);
            }
        }
        if m.contains_key(k) && k != e.0@ {
            let i = choose|i: int| 0 <= i < v.len() && v[i].0@ == k;
            if i < j {
                assert(u[i] == v[i]);
            } else {
                assert(u[i + 1] == v[i]);
            }
        }
        if k == e.0@ {
            assert(u[j].0@ == k);
        }
    }
    assert forall|k: Seq<char>| #[trigger] entries_map(u).contains_key(k) implies entries_map(u)[k] == m[k] by {
        let i = choose|i: int| 0 <= i < u.len() && u[i].0@ == k;
        if i < j {
            assert(u[i] == v[i]);
        } else if i > j {
            assert(u[i] == v[i - 1]);
        }
    }
    assert(entries_map(u) =~= m);
}

// --- Recording ----------------------------------------------------------------------

/// Where a pattern stands among sorted entries: the first entry that does
/// not sort before it.
fn locate<W>(patterns: &Vec<(String, PatternHistory<W>)>, p: &[char]) -> (r: usize)
    ensures
        r <= patterns@.len(),
        forall|i: int| 0 <= i < r ==> text_less(#[trigger] patterns@[i].0@, p@),
        r < patterns@.len() ==> !text_less(patterns@[r as int].0@, p@),
{
    let mut k: usize = 0;
    while k < patterns.len()
        invariant
            k <= patterns@.len(),
            forall|i: int| 0 <= i < k ==> text_less(#[trigger] patterns@[i].0@, p@),
        decreases patterns@.len() - k,
    {
        let key = chars_of(patterns[k].0.as_str());
        if !chars_less(key.as_slice(), p) {
            return k;
        }
        k += 1;
    }
    k
}

/// The entry for a pattern, if there is one.
fn find<W>(patterns: &Vec<(String, PatternHistory<W>)>, p: &[char]) -> (r: Option<usize>)
    requires
        keys_sorted(patterns@),
    ensures
        match r {
            Some(j) => j < patterns@.len() && patterns@[j as int].0@ == p@,
            None => !entries_map(patterns@).contains_key(p@),
        },
{
    let j = locate(patterns, p);
    if j < patterns.len() {
        let key = chars_of(patterns[j].0.as_str());
        if chars_equal(key.as_slice(), p) {
            return Some(j);
        }
    }
    proof {
        assert forall|i: int| 0 <= i < patterns@.len() implies #[trigger] patterns@[i].0@ != p@ by {
            if i < j {
                lemma_text_order(patterns@[i].0@, p@);
            } else {
                lemma_text_order(patterns@[j as int].0@, p@);
                if i > j {
                    assert(text_less(patterns@[j as int].0@, patterns@[i].0@));
                    lemma_text_order(patterns@[i].0@, p@);
                    if text_less(patterns@[i].0@, p@) {
                        lemma_text_less_transitive(patterns@[j as int].0@, patterns@[i].0@, p@, 0);
                    }
                }
            }
        }
        lemma_entries_absent(patterns@, p@);
    }
    None
}

/// A pattern's history after one event.
fn step<W: Copy>(h: PatternHistory<W>, e: &TrainingEvent<W>, session: usize, window: usize) -> (r: PatternHistory<W>)
    requires
        event_fits(h@, *e),
    ensures
        r@ == event_on(h@, *e, session as int, window),
{
    if e.target.role == TargetRole::Deferred {
        if h.deferral_remaining == 0 {
            PatternHistory {
                deferral_remaining: window,
                sessions_practised: h.sessions_practised,
                achieved_dose: h.achieved_dose,
                practised_means: h.practised_means,
                last_practised: h.last_practised,
            }
        } else {
            h
        }
    } else {
        let mut means = h.practised_means;
        means.push(e.target.weakness_mean);
        PatternHistory {
            deferral_remaining: h.deferral_remaining,
            sessions_practised: h.sessions_practised + 1,
            achieved_dose: h.achieved_dose + e.achieved_dose,
            practised_means: means,
            last_practised: Some(session),
        }
    }
}

/// Every recorded pattern was last practised no later than `bound`.
pub open spec fn practised_by<W>(m: Map<Seq<char>, PatternView<W>>, bound: int) -> bool {
    forall|k: Seq<char>|
        #[trigger] m.contains_key(k) ==> match m[k].last_practised {
            Some(last) => 1 <= last <= bound,
            None => true,
        }
}

/// Records one event of session `session` against the pattern's entry,
/// adding the entry where the order puts it if the pattern is new.
fn record_event<W: Copy>(
    patterns: &mut Vec<(String, PatternHistory<W>)>,
    e: &TrainingEvent<W>,
    session: usize,
    window: usize,
)
    requires
        keys_sorted(old(patterns)@),
        1 <= session,
        practised_by(entries_map(old(patterns)@), session as int),
        event_fits(history_of(entries_map(old(patterns)@), e.target.pattern@), *e),
    ensures
        keys_sorted(final(patterns)@),
        practised_by(entries_map(final(patterns)@), session as int),
        entries_map(final(patterns)@) == entries_map(old(patterns)@).insert(
            e.target.pattern@,
            event_on(history_of(entries_map(old(patterns)@), e.target.pattern@), *e, session as int, window),
        ),
{
    let ghost before = patterns@;
    let ghost m = entries_map(before);
    let ghost p = e.target.pattern@;
    let chars = chars_of(e.target.pattern.as_str());
    let j = locate(patterns, chars.as_slice());
    let mut found = false;
    if j < patterns.len() {
        let key = chars_of(patterns[j].0.as_str());
        found = chars_equal(key.as_slice(), chars.as_slice());
    }
    if found {
        proof {
            lemma_entries_map(before);
        }
        let (key, h) = patterns.remove(j);
        let h2 = step(h, e, session, window);
        patterns.insert(j, (key, h2));
        proof {
            assert(patterns@ =~= before.update(j as int, (key, h2)));
            lemma_entries_update(before, j as int, (key, h2));
        }
    } else {
        proof {
            assert forall|i: int| j <= i < before.len() implies text_less(p, #[trigger] before[i].0@) by {
                lemma_text_order(before[j as int].0@, p);
                if i > j {
                    assert(text_less(before[j as int].0@, before[i].0@));
                    lemma_text_less_transitive(p, before[j as int].0@, before[i].0@, 0);
                }
            }
        }
        let fresh = PatternHistory {
            deferral_remaining: 0,
            sessions_practised: 0,
            achieved_dose: 0,
            practised_means: Vec::new(),
            last_practised: None,
        };
        proof {
            lemma_entries_insert(before, j as int, (e.target.pattern, fresh));
            assert(fresh@ == unrecorded::<W>());
        }
        let h2 = step(fresh, e, session, window);
        let entry = (e.target.pattern.clone(), h2);
        patterns.insert(j, entry);
        proof {
            lemma_entries_insert(before, j as int, entry);
        }
    }
    proof {
        let after = entries_map(patterns@);
        assert forall|k: Seq<char>| #[trigger] after.contains_key(k) implies match after[k].last_practised {
            Some(last) => 1 <= last <= session,
            None => true,
        } by {
            if k != p {
                assert(m.contains_key(k));
            }
        }
    }
}

/// Every history one session on.
fn run_down_all<W>(patterns: &mut Vec<(String, PatternHistory<W>)>)
    requires
        keys_sorted(old(patterns)@),
    ensures
        keys_sorted(final(patterns)@),
        entries_map(final(patterns)@) == ran_down(entries_map(old(patterns)@)),
{
    let ghost before = patterns@;
    let mut i: usize = 0;
    while i < patterns.len()
        invariant
            patterns@.len() == before.len(),
            i <= before.len(),
            keys_sorted(before),
            forall|m: int| 0 <= m < before.len() ==> (#[trigger] patterns@[m]).0@ == before[m].0@,
            forall|m: int| 0 <= m < i ==> (#[trigger] patterns@[m]).1@ == run_down(before[m].1@),
            forall|m: int| i <= m < before.len() ==> (#[trigger] patterns@[m]).1@ == before[m].1@,
        decreases before.len() - i,
    {
        let (key, h) = patterns.remove(i);
        let remaining = if h.deferral_remaining > 0 {
            h.deferral_remaining - 1
        } else {
            0
        };
        let h2 = PatternHistory {
            deferral_remaining: remaining,
            sessions_practised: h.sessions_practised,
            achieved_dose: h.achieved_dose,
            practised_means: h.practised_means,
            last_practised: h.last_practised,
        };
        let ghost mid = patterns@;
        patterns.insert(i, (key, h2));
        proof {
            assert forall|m: int| 0 <= m < before.len() implies (#[trigger] patterns@[m]).0@ == before[m].0@ by {
                if m != i {
                    assert(patterns@[m] == if m < i { mid[m] } else { mid[m - 1] });
                }
            }
        }
        i += 1;
    }
    proof {
        let v = patterns@;
        assert(keys_sorted(v)) by {
            assert forall|a: int, b: int| 0 <= a < b < v.len() implies text_less(#[trigger] v[a].0@, #[trigger] v[b].0@) by {
                assert(text_less(before[a].0@, before[b].0@));
            }
        }
        lemma_entries_map(v);
        lemma_entries_map(before);
        let target = ran_down(entries_map(before));
        assert forall|k: Seq<char>| #[trigger] entries_map(v).contains_key(k) <==> target.contains_key(k) by {
            if entries_map(v).contains_key(k) {
                let a = choose|a: int| 0 <= a < v.len() && v[a].0@ == k;
                assert(entries_map(before).contains_key(before[a].0@));
            }
            if target.contains_key(k) {
                let a = choose|a: int| 0 <= a < before.len() && before[a].0@ == k;
                assert(entries_map(v).contains_key(v[a].0@));
            }
        }
        assert forall|k: Seq<char>| #[trigger] entries_map(v).contains_key(k) implies entries_map(v)[k]
            == target[k] by {
            let a = choose|a: int| 0 <= a < v.len() && v[a].0@ == k;
            assert(entries_map(v)[v[a].0@] == v[a].1@);
            assert(entries_map(before)[before[a].0@] == before[a].1@);
        }
        assert(entries_map(v) =~= target);
    }
}

// --- The history ----------------------------------------------------------------------

/// Whether a pattern was a target or exploration target in any of the last
/// `sessions` sessions recorded.
pub open spec fn practised_within_spec<W>(v: TrainingView<W>, p: Seq<char>, sessions: int) -> bool {
    &&& v.patterns.contains_key(p)
    &&& match v.patterns[p].last_practised {
        Some(last) => last + sessions > v.sessions,
        None => false,
    }
}

/// Whether a pattern is inside a deferral window.
pub open spec fn deferred_spec<W>(v: TrainingView<W>, p: Seq<char>) -> bool {
    v.patterns.contains_key(p) && v.patterns[p].deferral_remaining > 0
}

/// Whether a word was shown as targeted in any of the last `sessions`
/// sessions recorded.
pub open spec fn targeted_within_spec<W>(v: TrainingView<W>, word: Seq<char>, sessions: int) -> bool {
    exists|i: int|
        v.targeted_words.len() - sessions <= i < v.targeted_words.len() && 0 <= i && (
        #[trigger] v.targeted_words[i]).contains(word)
}

/// Texts in strictly increasing order.
pub open spec fn texts_sorted(v: Seq<Seq<char>>) -> bool {
    forall|i: int, j: int| 0 <= i < j < v.len() ==> text_less(#[trigger] v[i], #[trigger] v[j])
}

impl<W> TrainingHistory<W> {
    /// The history is well formed: its entries are in pattern order, and
    /// its view is consistent.
    pub closed spec fn wf(&self) -> bool {
        &&& keys_sorted(self.patterns@)
        &&& self.targeted_words@.len() == self.sessions
        &&& practised_by(entries_map(self.patterns@), self.sessions as int)
    }

    /// A well-formed history has a consistent view.
    pub proof fn lemma_wf(&self)
        requires
            self.wf(),
        ensures
            training_wf(self@),
    {
    }

    /// The history of a profile with no sessions.
    pub fn new() -> (r: TrainingHistory<W>)
        ensures
            r.wf(),
            r@.sessions == 0,
            r@.patterns == Map::<Seq<char>, PatternView<W>>::empty(),
            r@.targeted_words == Seq::<Seq<Seq<char>>>::empty(),
    {
        let r = TrainingHistory { sessions: 0, patterns: Vec::new(), targeted_words: Vec::new() };
        assert(words_view(r.targeted_words@) =~= Seq::<Seq<Seq<char>>>::empty());
        r
    }

    /// Sessions recorded so far.
    pub fn sessions(&self) -> (r: usize)
        ensures
            r == self@.sessions,
    {
        self.sessions
    }

    /// What has happened to a pattern; `None` if it was never selected.
    pub fn pattern(&self, pattern: &str) -> (r: Option<&PatternHistory<W>>)
        requires
            self.wf(),
        ensures
            match r {
                Some(h) => self@.patterns.contains_key(pattern@) && h@ == self@.patterns[pattern@],
                None => !self@.patterns.contains_key(pattern@),
            },
    {
        let chars = chars_of(pattern);
        match find(&self.patterns, chars.as_slice()) {
            Some(j) => {
                proof {
                    lemma_entries_map(self.patterns@);
                }
                Some(&self.patterns[j].1)
            },
            None => None,
        }
    }

    /// Whether the pattern is inside a deferral window.
    pub fn is_deferred(&self, pattern: &str) -> (r: bool)
        requires
            self.wf(),
        ensures
            r == deferred_spec(self@, pattern@),
    {
        match self.pattern(pattern) {
            Some(h) => h.deferral_remaining > 0,
            None => false,
        }
    }

    /// Whether the pattern was a target or exploration target in any of the
    /// last `sessions` sessions recorded.
    pub fn practised_within(&self, pattern: &str, sessions: usize) -> (r: bool)
        requires
            self.wf(),
        ensures
            r == practised_within_spec(self@, pattern@, sessions as int),
    {
        match self.pattern(pattern) {
            Some(h) => match h.last_practised {
                Some(last) => sessions > self.sessions - last,
                None => false,
            },
            None => false,
        }
    }

    /// Every pattern still inside its deferral window, with the sessions
    /// remaining, in pattern order.
    pub fn deferrals(&self) -> (r: Vec<(String, usize)>)
        requires
            self.wf(),
        ensures
            texts_sorted(texts_view(Seq::new(r@.len(), |i: int| r@[i].0))),
            forall|k: Seq<char>|
                deferred_spec(self@, k) <==> exists|i: int| 0 <= i < r@.len() && (#[trigger] r@[i]).0@ == k,
            forall|i: int|
                0 <= i < r@.len() ==> (#[trigger] r@[i]).1 == self@.patterns[r@[i].0@].deferral_remaining,
    {
        let ghost v = self.patterns@;
        proof {
            lemma_entries_map(v);
        }
        let mut out: Vec<(String, usize)> = Vec::new();
        let ghost mut from: Seq<int> = seq![];
        let mut k: usize = 0;
        while k < self.patterns.len()
            invariant
                v == self.patterns@,
                keys_sorted(v),
                k <= v.len(),
                from.len() == out@.len(),
                forall|a: int| 0 <= a < from.len() ==> 0 <= #[trigger] from[a] < k,
                forall|a: int, b: int| 0 <= a < b < from.len() ==> #[trigger] from[a] < #[trigger] from[b],
                forall|a: int|
                    0 <= a < out@.len() ==> (#[trigger] out@[a]).0@ == v[from[a]].0@ && out@[a].1
                        == v[from[a]].1.deferral_remaining,
                forall|m: int|
                    0 <= m < k && v[m].1.deferral_remaining > 0 ==> exists|a: int|
                        0 <= a < from.len() && #[trigger] from[a] == m,
                forall|a: int| 0 <= a < from.len() ==> v[#[trigger] from[a]].1.deferral_remaining > 0,
            decreases v.len() - k,
        {
            let remaining = self.patterns[k].1.deferral_remaining;
            let ghost before = from;
            if remaining > 0 {
                out.push((self.patterns[k].0.clone(), remaining));
                proof {
                    from = from.push(k as int);
                    assert(from[from.len() - 1] == k);
                    assert forall|m: int| 0 <= m < k && v[m].1.deferral_remaining > 0 implies exists|a: int|
                        0 <= a < from.len() && #[trigger] from[a] == m by {
                        let a = choose|a: int| 0 <= a < before.len() && #[trigger] before[a] == m;
                        assert(from[a] == m);
                    }
                }
            }
            k += 1;
        }
        proof {
            let keys = texts_view(Seq::new(out@.len(), |i: int| out@[i].0));
            assert forall|a: int, b: int| 0 <= a < b < keys.len() implies text_less(#[trigger] keys[a], #[trigger] keys[b]) by {
                assert(text_less(v[from[a]].0@, v[from[b]].0@));
            }
            assert forall|key: Seq<char>| deferred_spec(self@, key) <==> exists|i: int|
                0 <= i < out@.len() && (#[trigger] out@[i]).0@ == key by {
                if deferred_spec(self@, key) {
                    let m = choose|m: int| 0 <= m < v.len() && v[m].0@ == key;
                    assert(entries_map(v)[v[m].0@] == v[m].1@);
                    let a = choose|a: int| 0 <= a < from.len() && #[trigger] from[a] == m;
                    assert(out@[a].0@ == key);
                }
                if exists|i: int| 0 <= i < out@.len() && (#[trigger] out@[i]).0@ == key {
                    let i = choose|i: int| 0 <= i < out@.len() && (#[trigger] out@[i]).0@ == key;
                    assert(entries_map(v).contains_key(v[from[i]].0@));
                    assert(entries_map(v)[v[from[i]].0@] == v[from[i]].1@);
                }
            }
            assert forall|i: int| 0 <= i < out@.len() implies (#[trigger] out@[i]).1
                == self@.patterns[out@[i].0@].deferral_remaining by {
                assert(entries_map(v)[v[from[i]].0@] == v[from[i]].1@);
            }
        }
        out
    }

    /// Every pattern that was a target or exploration target in any of the
    /// last `sessions` sessions recorded, in pattern order.
    pub fn recently_practised(&self, sessions: usize) -> (r: Vec<String>)
        requires
            self.wf(),
        ensures
            texts_sorted(texts_view(r@)),
            forall|k: Seq<char>|
                practised_within_spec(self@, k, sessions as int) <==> texts_view(r@).contains(k),
    {
        let ghost v = self.patterns@;
        proof {
            lemma_entries_map(v);
        }
        let mut out: Vec<String> = Vec::new();
        let ghost mut from: Seq<int> = seq![];
        let mut k: usize = 0;
        while k < self.patterns.len()
            invariant
                v == self.patterns@,
                keys_sorted(v),
                practised_by(entries_map(v), self.sessions as int),
                k <= v.len(),
                from.len() == out@.len(),
                forall|a: int| 0 <= a < from.len() ==> 0 <= #[trigger] from[a] < k,
                forall|a: int, b: int| 0 <= a < b < from.len() ==> #[trigger] from[a] < #[trigger] from[b],
                forall|a: int| 0 <= a < out@.len() ==> (#[trigger] out@[a])@ == v[from[a]].0@,
                forall|m: int|
                    0 <= m < k && practised_within_spec(self@, v[m].0@, sessions as int) ==> exists|a: int|
                        0 <= a < from.len() && #[trigger] from[a] == m,
                forall|a: int|
                    0 <= a < from.len() ==> practised_within_spec(self@, v[#[trigger] from[a]].0@, sessions as int),
            decreases v.len() - k,
        {
            proof {
                lemma_entries_map(v);
                assert(entries_map(v)[v[k as int].0@] == v[k as int].1@);
                assert(entries_map(v).contains_key(v[k as int].0@));
            }
            let within = match self.patterns[k].1.last_practised {
                Some(last) => sessions > self.sessions - last,
                None => false,
            };
            let ghost before = from;
            if within {
                out.push(self.patterns[k].0.clone());
                proof {
                    from = from.push(k as int);
                    assert(from[from.len() - 1] == k);
                    assert forall|m: int|
                        0 <= m < k && practised_within_spec(self@, v[m].0@, sessions as int) implies exists|a: int|
                        0 <= a < from.len() && #[trigger] from[a] == m by {
                        let a = choose|a: int| 0 <= a < before.len() && #[trigger] before[a] == m;
                        assert(from[a] == m);
                    }
                }
            }
            k += 1;
        }
        proof {
            let keys = texts_view(out@);
            assert forall|a: int, b: int| 0 <= a < b < keys.len() implies text_less(#[trigger] keys[a], #[trigger] keys[b]) by {
                assert(text_less(v[from[a]].0@, v[from[b]].0@));
            }
            assert forall|key: Seq<char>| practised_within_spec(self@, key, sessions as int) <==> keys.contains(key) by {
                if practised_within_spec(self@, key, sessions as int) {
                    let m = choose|m: int| 0 <= m < v.len() && v[m].0@ == key;
                    let a = choose|a: int| 0 <= a < from.len() && #[trigger] from[a] == m;
                    assert(keys[a] == key);
                }
                if keys.contains(key) {
                    let i = choose|i: int| 0 <= i < keys.len() && keys[i] == key;
                    assert(out@[i]@ == v[from[i]].0@);
                }
            }
        }
        out
    }

    /// Whether the word was shown as targeted in any of the last `sessions`
    /// sessions recorded.
    pub fn targeted_word_within(&self, word: &str, sessions: usize) -> (r: bool)
        requires
            self.wf(),
        ensures
            r == targeted_within_spec(self@, word@, sessions as int),
    {
        let chars = chars_of(word);
        let n = self.targeted_words.len();
        let ghost tw = words_view(self.targeted_words@);
        let mut back: usize = 0;
        while back < sessions && back < n
            invariant
                n == self.targeted_words@.len(),
                tw == words_view(self.targeted_words@),
                back <= n,
                chars@ == word@,
                forall|i: int| n - back <= i < n ==> !(#[trigger] tw[i]).contains(word@),
            decreases n - back,
        {
            let i = n - 1 - back;
            if holds_text(self.targeted_words[i].as_slice(), chars.as_slice()) {
                assert(tw[i as int] == texts_view(self.targeted_words@[i as int]@));
                assert(self@.targeted_words == tw);
                assert(self@.targeted_words[i as int].contains(word@));
                return true;
            }
            assert(tw[i as int] == texts_view(self.targeted_words@[i as int]@));
            back += 1;
        }
        false
    }

    /// Records one session's events and the words its prompt showed as
    /// targeted, the next session in order. A deferred event for a pattern
    /// not inside a window opens one of `deferral_window` sessions, this one
    /// included. Every open window then runs down by this session, whether
    /// or not the pattern was logged in it, so a session that selected
    /// nothing still counts.
    pub fn record(&mut self, events: &[TrainingEvent<W>], targeted_words: &[String], deferral_window: usize)
        where
            W: Copy,
        requires
            old(self).wf(),
            old(self)@.sessions < usize::MAX,
            events_fit(old(self)@.patterns, events@, (old(self)@.sessions + 1) as int, deferral_window),
        ensures
            final(self).wf(),
            final(self)@.sessions == old(self)@.sessions + 1,
            final(self)@.targeted_words == old(self)@.targeted_words.push(texts_view(targeted_words@)),
            final(self)@.patterns == ran_down(
                events_applied(old(self)@.patterns, events@, events@.len() as int, (old(self)@.sessions + 1) as int, deferral_window),
            ),
    {
        let ghost m0 = entries_map(self.patterns@);
        let ghost s0 = self.sessions;
        let ghost w0 = self.targeted_words@;
        self.sessions = self.sessions + 1;
        let session = self.sessions;
        let mut words: Vec<String> = Vec::new();
        let mut i: usize = 0;
        while i < targeted_words.len()
            invariant
                i <= targeted_words@.len(),
                texts_view(words@) == texts_view(targeted_words@).take(i as int),
            decreases targeted_words@.len() - i,
        {
            let ghost before = words@;
            words.push(targeted_words[i].clone());
            proof {
                assert(texts_view(before).len() == i);
                assert(words@.len() == i + 1);
                assert(texts_view(words@)[i as int] == texts_view(targeted_words@)[i as int]);
                assert forall|m: int| 0 <= m < i implies texts_view(words@)[m] == texts_view(targeted_words@)[m] by {
                    assert(texts_view(words@)[m] == texts_view(before)[m]);
                    assert(texts_view(before)[m] == texts_view(targeted_words@).take(i as int)[m]);
                }
                assert(texts_view(words@) =~= texts_view(targeted_words@).take(i + 1));
            }
            i += 1;
        }
        proof {
            assert(texts_view(targeted_words@).take(targeted_words@.len() as int) =~= texts_view(targeted_words@));
        }
        self.targeted_words.push(words);
        proof {
            assert(words_view(self.targeted_words@) =~= words_view(w0).push(texts_view(targeted_words@)));
        }
        let mut patterns: Vec<(String, PatternHistory<W>)> = Vec::new();
        std::mem::swap(&mut patterns, &mut self.patterns);
        let mut k: usize = 0;
        while k < events.len()
            invariant
                k <= events@.len(),
                1 <= session,
                session == s0 + 1,
                keys_sorted(patterns@),
                practised_by(entries_map(patterns@), session as int),
                entries_map(patterns@) == events_applied(m0, events@, k as int, session as int, deferral_window),
                events_fit(m0, events@, session as int, deferral_window),
            decreases events@.len() - k,
        {
            proof {
                assert(event_fits(
                    history_of(events_applied(m0, events@, k as int, session as int, deferral_window), events@[k as int].target.pattern@),
                    events@[k as int],
                ));
            }
            record_event(&mut patterns, &events[k], session, deferral_window);
            k += 1;
        }
        run_down_all(&mut patterns);
        proof {
            let after = entries_map(patterns@);
            let applied = events_applied(m0, events@, events@.len() as int, session as int, deferral_window);
            assert forall|key: Seq<char>| #[trigger] after.contains_key(key) implies match after[key].last_practised {
                Some(last) => 1 <= last <= session,
                None => true,
            } by {
                assert(applied.contains_key(key));
            }
        }
        self.patterns = patterns;
    }
}

// --- Laws ---------------------------------------------------------------------------

/// Recording leaves an open window open, whatever the session logs for
/// the pattern.
proof fn lemma_open_window_kept<W>(
    m: Map<Seq<char>, PatternView<W>>,
    events: Seq<TrainingEvent<W>>,
    n: int,
    session: int,
    window: usize,
    p: Seq<char>,
)
    requires
        0 <= n <= events.len(),
        history_of(m, p).deferral_remaining > 0,
    ensures
        history_of(events_applied(m, events, n, session, window), p).deferral_remaining == history_of(
            m,
            p,
        ).deferral_remaining,
    decreases n,
{
    if n > 0 {
        lemma_open_window_kept(m, events, n - 1, session, window, p);
    }
}

/// Every open deferral window runs down by one with each recorded session,
/// whether or not the session logged the pattern.
pub proof fn lemma_open_window_runs_down<W>(
    m: Map<Seq<char>, PatternView<W>>,
    events: Seq<TrainingEvent<W>>,
    session: int,
    window: usize,
    p: Seq<char>,
)
    requires
        history_of(m, p).deferral_remaining > 0,
    ensures
        history_of(ran_down(events_applied(m, events, events.len() as int, session, window)), p).deferral_remaining
            == history_of(m, p).deferral_remaining - 1,
{
    lemma_open_window_kept(m, events, events.len() as int, session, window, p);
    lemma_recorded_stays(m, events, events.len() as int, session, window, p);
}

/// A pattern once recorded stays recorded.
proof fn lemma_recorded_stays<W>(
    m: Map<Seq<char>, PatternView<W>>,
    events: Seq<TrainingEvent<W>>,
    n: int,
    session: int,
    window: usize,
    p: Seq<char>,
)
    requires
        0 <= n <= events.len(),
        m.contains_key(p) || history_of(m, p).deferral_remaining > 0,
    ensures
        events_applied(m, events, n, session, window).contains_key(p),
    decreases n,
{
    if n > 0 {
        lemma_recorded_stays(m, events, n - 1, session, window, p);
    }
}

/// A deferral of a pattern outside any window opens one of `window`
/// sessions, this one included: after the session that logged it, the
/// window has `window - 1` sessions to run.
pub proof fn lemma_deferral_opens_window<W>(
    m: Map<Seq<char>, PatternView<W>>,
    e: TrainingEvent<W>,
    session: int,
    window: usize,
)
    requires
        e.target.role == TargetRole::Deferred,
        history_of(m, e.target.pattern@).deferral_remaining == 0,
        window >= 1,
    ensures
        history_of(ran_down(events_applied(m, seq![e], 1, session, window)), e.target.pattern@).deferral_remaining
            == window - 1,
{
    let once = events_applied(m, seq![e], 1, session, window);
    assert(events_applied(m, seq![e], 0, session, window) == m);
    assert(once.contains_key(e.target.pattern@));
}

} // verus!
