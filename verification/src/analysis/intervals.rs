//! Decides which incoming latencies carry motor evidence.
//!
//! Every keystroke from the first printable character on gets an interval.
//! An interval is clean unless something about the keystroke, the one
//! before it, or the word it lands in says the latency is not the user
//! simply typing the next character; an otherwise clean interval longer
//! than the hesitation threshold is a hesitation instead.

use vstd::prelude::*;

use super::attempt::{Keystroke, Role};
use super::{median, median_of, Exclusion, HesitationThreshold, Interval, IntervalClass};
use crate::prompt::{pattern_at, Slot};
use crate::session::{view_wf, EventKind, InputEvent, SessionState, SessionView, LONG_PAUSE_MICROS};

verus! {

/// The hesitation threshold is this multiple of a typical clean latency,
/// and never below [`LONG_PAUSE_MICROS`].
pub const HESITATION_MULTIPLE: u64 = 4;

/// What an interval's class holds.
pub enum ClassView {
    Clean,
    Hesitation { threshold_micros: u64 },
    Excluded(Seq<Exclusion>),
}

impl View for IntervalClass {
    type V = ClassView;

    open spec fn view(&self) -> ClassView {
        match self {
            IntervalClass::Clean => ClassView::Clean,
            IntervalClass::Hesitation { threshold_micros } => ClassView::Hesitation {
                threshold_micros: *threshold_micros,
            },
            IntervalClass::Excluded(reasons) => ClassView::Excluded(reasons@),
        }
    }
}

/// What an interval holds.
pub struct IntervalView {
    pub seq: u32,
    pub at_micros: u64,
    pub kind: EventKind,
    pub slot: Slot,
    pub pattern: Seq<char>,
    pub actual: Option<char>,
    pub latency_micros: Option<u64>,
    pub class: ClassView,
}

impl View for Interval {
    type V = IntervalView;

    open spec fn view(&self) -> IntervalView {
        IntervalView {
            seq: self.seq,
            at_micros: self.at_micros,
            kind: self.kind,
            slot: self.slot,
            pattern: self.pattern@,
            actual: self.actual,
            latency_micros: self.latency_micros,
            class: self.class@,
        }
    }
}

/// `HESITATION_MULTIPLE` times a latency, saturating, and never below the
/// floor.
pub open spec fn scaled_threshold(typical: int) -> u64 {
    let scaled = typical * HESITATION_MULTIPLE;
    let capped: int = if scaled > u64::MAX { u64::MAX as int } else { scaled };
    if capped > LONG_PAUSE_MICROS { capped as u64 } else { LONG_PAUSE_MICROS }
}

/// The threshold in force given the clean latencies so far.
pub open spec fn threshold_for(policy: HesitationThreshold, clean: Seq<u64>) -> u64 {
    match policy {
        HesitationThreshold::UserBaseline(typical) => scaled_threshold(typical as int),
        HesitationThreshold::RunningMedian => match median_of(clean) {
            Some(m) => scaled_threshold(m),
            None => LONG_PAUSE_MICROS,
        },
    }
}

/// The index of the first latency in `s` from `from` on that is not less
/// than `x`, or the length: where `x` goes to keep a sorted list sorted.
pub open spec fn insertion_point(s: Seq<u64>, x: u64, from: int) -> int
    decreases s.len() - from,
{
    if from < 0 || from >= s.len() {
        s.len() as int
    } else if s[from] >= x {
        from
    } else {
        insertion_point(s, x, from + 1)
    }
}

/// The latencies with `x` inserted before the first that is not less.
pub open spec fn insert_sorted(s: Seq<u64>, x: u64) -> Seq<u64> {
    s.insert(insertion_point(s, x, 0), x)
}

/// One reason, if its condition holds.
pub open spec fn reason_if(cond: bool, reason: Exclusion) -> Seq<Exclusion> {
    if cond {
        seq![reason]
    } else {
        seq![]
    }
}

/// Every reason a keystroke's interval is excluded, in a fixed order.
pub open spec fn exclusions(
    e: InputEvent,
    role: Role,
    previous: Option<(u64, Role)>,
    first_uncorrected: Option<usize>,
) -> Seq<Exclusion> {
    reason_if(e.flags.first_of_session, Exclusion::FirstOfSession) + reason_if(
        role == Role::Backspace,
        Exclusion::Backspace,
    ) + reason_if(role == Role::Replacement, Exclusion::Replacement) + reason_if(
        previous matches Some((_, r)) && (r == Role::Backspace || r == Role::Replacement),
        Exclusion::AfterCorrection,
    ) + reason_if(
        first_uncorrected matches Some(p) && e.position > p,
        Exclusion::FollowingError,
    ) + reason_if(e.flags.after_resize, Exclusion::AfterResize) + reason_if(
        e.flags.in_paste,
        Exclusion::InPaste,
    ) + reason_if(e.flags.burst, Exclusion::Burst) + reason_if(
        role == Role::Ignored && !e.flags.in_paste,
        Exclusion::Ignored,
    )
}

/// The classification so far: the intervals, the previous keystroke not
/// pasted, the clean latencies sorted, and whether the session had
/// started.
pub struct ClassifyView {
    pub intervals: Seq<IntervalView>,
    pub previous: Option<(u64, Role)>,
    pub clean: Seq<u64>,
    pub started: bool,
}

/// The slot a keystroke was for: extras past a word's end belong to the
/// following space.
pub open spec fn keystroke_slot(v: SessionView, e: InputEvent) -> Slot {
    let target_len = v.prompt[e.word_index as int].len();
    Slot { word: e.word_index, position: if e.position < target_len { e.position } else { target_len as usize } }
}

/// The classification after one more keystroke.
pub open spec fn classify_step(
    v: SessionView,
    first_uncorrected: Seq<Option<usize>>,
    policy: HesitationThreshold,
    c: ClassifyView,
    k: Keystroke,
) -> ClassifyView {
    let e = v.events[k.event as int];
    let started = c.started || e.flags.first_of_session;
    if !started {
        c
    } else {
        let latency: Option<u64> = match c.previous {
            Some((at, _)) => Some(if e.at_micros >= at { (e.at_micros - at) as u64 } else { 0 }),
            None => None,
        };
        let reasons = exclusions(e, k.role, c.previous, first_uncorrected[e.word_index as int]);
        let threshold = threshold_for(policy, c.clean);
        let hesitant = latency matches Some(l) && l > threshold;
        let class = if reasons.len() > 0 {
            ClassView::Excluded(reasons)
        } else if hesitant {
            ClassView::Hesitation { threshold_micros: threshold }
        } else {
            ClassView::Clean
        };
        let clean = if reasons.len() == 0 && !hesitant {
            insert_sorted(c.clean, latency->0)
        } else {
            c.clean
        };
        let slot = keystroke_slot(v, e);
        let interval = IntervalView {
            seq: e.seq,
            at_micros: e.at_micros,
            kind: e.kind,
            slot,
            pattern: pattern_at(v.prompt, slot),
            actual: e.actual,
            latency_micros: latency,
            class,
        };
        ClassifyView {
            intervals: c.intervals.push(interval),
            previous: if !e.flags.in_paste { Some((e.at_micros, k.role)) } else { c.previous },
            clean,
            started,
        }
    }
}

/// The classification after the first `n` keystrokes.
pub open spec fn classified_upto(
    v: SessionView,
    keystrokes: Seq<Keystroke>,
    first_uncorrected: Seq<Option<usize>>,
    policy: HesitationThreshold,
    n: int,
) -> ClassifyView
    decreases n,
{
    if n <= 0 {
        ClassifyView { intervals: seq![], previous: None, clean: seq![], started: false }
    } else {
        classify_step(
            v,
            first_uncorrected,
            policy,
            classified_upto(v, keystrokes, first_uncorrected, policy, n - 1),
            keystrokes[n - 1],
        )
    }
}

/// What some intervals hold.
pub open spec fn intervals_view(s: Seq<Interval>) -> Seq<IntervalView> {
    Seq::new(s.len(), |i: int| s[i]@)
}

/// Latencies kept sorted so the median is at hand.
pub struct SortedLatencies {
    sorted: Vec<u64>,
}

impl View for SortedLatencies {
    type V = Seq<u64>;

    closed spec fn view(&self) -> Seq<u64> {
        self.sorted@
    }
}

impl SortedLatencies {
    pub fn new() -> (r: SortedLatencies)
        ensures
            r@ == Seq::<u64>::empty(),
    {
        SortedLatencies { sorted: Vec::new() }
    }

    /// The median of the latencies so far.
    pub fn median(&self) -> (r: Option<u64>)
        ensures
            match r {
                Some(m) => median_of(self@) == Some(m as int),
                None => median_of(self@) is None,
            },
    {
        median(self.sorted.as_slice())
    }

    /// Adds a latency before the first one that is not less.
    pub fn push(&mut self, latency: u64)
        ensures
            final(self)@ == insert_sorted(old(self)@, latency),
    {
        let mut at: usize = 0;
        while at < self.sorted.len()
            invariant
                at <= self.sorted@.len(),
                insertion_point(self.sorted@, latency, 0) == insertion_point(self.sorted@, latency, at as int),
            ensures
                at <= self.sorted@.len(),
                insertion_point(self.sorted@, latency, 0) == at,
            decreases self.sorted@.len() - at,
        {
            if self.sorted[at] >= latency {
                break;
            }
            at += 1;
        }
        self.sorted.insert(at, latency);
    }

    /// The threshold in force under a policy.
    pub fn hesitation_threshold(&self, policy: HesitationThreshold) -> (r: u64)
        ensures
            r == threshold_for(policy, self@),
    {
        let typical = match policy {
            HesitationThreshold::UserBaseline(typical) => typical,
            HesitationThreshold::RunningMedian => match median(self.sorted.as_slice()) {
                Some(m) => m,
                None => {
                    return LONG_PAUSE_MICROS;
                },
            },
        };
        let scaled = if typical > u64::MAX / HESITATION_MULTIPLE {
            u64::MAX
        } else {
            typical * HESITATION_MULTIPLE
        };
        if scaled > LONG_PAUSE_MICROS {
            scaled
        } else {
            LONG_PAUSE_MICROS
        }
    }
}

/// Adds a reason when its condition holds.
fn add_reason(reasons: &mut Vec<Exclusion>, cond: bool, reason: Exclusion)
    ensures
        final(reasons)@ == old(reasons)@ + reason_if(cond, reason),
{
    if cond {
        reasons.push(reason);
    } else {
        assert(old(reasons)@ + reason_if(cond, reason) =~= old(reasons)@);
    }
}

/// Every reason a keystroke's interval is excluded.
fn reasons_for(event: InputEvent, role: Role, previous: Option<(u64, Role)>, first_uncorrected: Option<usize>) -> (r: Vec<
    Exclusion,
>)
    ensures
        r@ == exclusions(event, role, previous, first_uncorrected),
{
    let mut reasons: Vec<Exclusion> = Vec::new();
    add_reason(&mut reasons, event.flags.first_of_session, Exclusion::FirstOfSession);
    add_reason(&mut reasons, role == Role::Backspace, Exclusion::Backspace);
    add_reason(&mut reasons, role == Role::Replacement, Exclusion::Replacement);
    let after_correction = match previous {
        Some((_, r)) => r == Role::Backspace || r == Role::Replacement,
        None => false,
    };
    add_reason(&mut reasons, after_correction, Exclusion::AfterCorrection);
    let following = match first_uncorrected {
        Some(p) => event.position > p,
        None => false,
    };
    add_reason(&mut reasons, following, Exclusion::FollowingError);
    add_reason(&mut reasons, event.flags.after_resize, Exclusion::AfterResize);
    add_reason(&mut reasons, event.flags.in_paste, Exclusion::InPaste);
    add_reason(&mut reasons, event.flags.burst, Exclusion::Burst);
    add_reason(&mut reasons, role == Role::Ignored && !event.flags.in_paste, Exclusion::Ignored);
    assert(reasons@ =~= exclusions(event, role, previous, first_uncorrected));
    reasons
}

/// The slot a recorded keystroke was for and the pattern ending there.
fn slot_and_pattern(state: &SessionState, event: InputEvent) -> (r: (Slot, String))
    requires
        state.wf(),
        event.word_index < state@.word_count,
    ensures
        r.0 == keystroke_slot(state@, event),
        r.1@ == pattern_at(state@.prompt, r.0),
{
    proof {
        state.lemma_wf();
    }
    let prompt = state.prompt();
    let target_len = prompt.word_len(event.word_index);
    let slot = Slot {
        word: event.word_index,
        position: if event.position < target_len { event.position } else { target_len },
    };
    let pattern = prompt.pattern_ending_at(slot);
    (slot, pattern)
}

/// Classifies one more keystroke.
fn classify_one(
    state: &SessionState,
    keystroke: Keystroke,
    first_uncorrected_error: &[Option<usize>],
    policy: HesitationThreshold,
    intervals: &mut Vec<Interval>,
    previous: &mut Option<(u64, Role)>,
    clean: &mut SortedLatencies,
    started: &mut bool,
)
    requires
        state.wf(),
        first_uncorrected_error@.len() == state@.word_count,
        keystroke.event < state@.events.len(),
        *old(started) ==> (*old(previous)) is Some,
    ensures
        *final(started) ==> (*final(previous)) is Some,
        (ClassifyView {
            intervals: intervals_view(final(intervals)@),
            previous: *final(previous),
            clean: final(clean)@,
            started: *final(started),
        }) == classify_step(
            state@,
            first_uncorrected_error@,
            policy,
            ClassifyView {
                intervals: intervals_view(old(intervals)@),
                previous: *old(previous),
                clean: old(clean)@,
                started: *old(started),
            },
            keystroke,
        ),
{
    proof {
        state.lemma_wf();
    }
    let ghost v = state@;
    let events = state.events();
    let event = events[keystroke.event];
    assert(v.events[keystroke.event as int] == event);
    let now_started = *started || event.flags.first_of_session;
    if !now_started {
        return;
    }
    *started = true;
    let latency = match *previous {
        Some((at, _)) => Some(if event.at_micros >= at { event.at_micros - at } else { 0 }),
        None => None,
    };
    let fue = first_uncorrected_error[event.word_index];
    let reasons = reasons_for(event, keystroke.role, *previous, fue);
    let threshold = clean.hesitation_threshold(policy);
    let class = if reasons.len() > 0 {
        IntervalClass::Excluded(reasons)
    } else {
        match latency {
            Some(l) => {
                if l > threshold {
                    IntervalClass::Hesitation { threshold_micros: threshold }
                } else {
                    clean.push(l);
                    IntervalClass::Clean
                }
            },
            None => IntervalClass::Clean,
        }
    };
    let (slot, pattern) = slot_and_pattern(state, event);
    let interval = Interval {
        seq: event.seq,
        at_micros: event.at_micros,
        kind: event.kind,
        slot,
        pattern,
        actual: event.actual,
        latency_micros: latency,
        class,
    };
    let ghost before = intervals@;
    intervals.push(interval);
    proof {
        assert(intervals_view(intervals@) =~= intervals_view(before).push(interval@));
    }
    if !event.flags.in_paste {
        *previous = Some((event.at_micros, keystroke.role));
    }
}

/// Classifies every keystroke's interval. `first_uncorrected_error[w]` is
/// the position in word `w` after which slots follow an uncorrected error.
pub fn classify(
    state: &SessionState,
    keystrokes: &[Keystroke],
    first_uncorrected_error: &[Option<usize>],
    policy: HesitationThreshold,
) -> (r: Vec<Interval>)
    requires
        state.wf(),
        first_uncorrected_error@.len() == state@.word_count,
        forall|i: int| 0 <= i < keystrokes@.len() ==> (#[trigger] keystrokes@[i]).event < state@.events.len(),
    ensures
        intervals_view(r@) == classified_upto(
            state@,
            keystrokes@,
            first_uncorrected_error@,
            policy,
            keystrokes@.len() as int,
        ).intervals,
{
    let mut intervals: Vec<Interval> = Vec::new();
    let mut previous: Option<(u64, Role)> = None;
    let mut clean = SortedLatencies::new();
    let mut started = false;
    let mut n: usize = 0;
    proof {
        assert(intervals_view(intervals@) =~= Seq::<IntervalView>::empty());
    }
    while n < keystrokes.len()
        invariant
            state.wf(),
            first_uncorrected_error@.len() == state@.word_count,
            forall|i: int| 0 <= i < keystrokes@.len() ==> (#[trigger] keystrokes@[i]).event < state@.events.len(),
            n <= keystrokes@.len(),
            started ==> previous is Some,
            (ClassifyView { intervals: intervals_view(intervals@), previous, clean: clean@, started })
                == classified_upto(state@, keystrokes@, first_uncorrected_error@, policy, n as int),
        decreases keystrokes@.len() - n,
    {
        classify_one(
            state,
            keystrokes[n],
            first_uncorrected_error,
            policy,
            &mut intervals,
            &mut previous,
            &mut clean,
            &mut started,
        );
        n += 1;
    }
    intervals
}

} // verus!
