//! What every step of a session keeps, and why a stored event log replays
//! to the state that recorded it.

use vstd::prelude::*;

use super::event::{input_of_event, EventKind, Input, InputEvent, Key};
use super::{
    classified, covered_words, initial, inputs_of, no_effects, position_of, run, step, view_wf,
    EndCondition, SessionView, MAX_EXTRAS,
};
use crate::prompt::valid_words;

verus! {

/// One input either leaves the session exactly as it was and reports
/// nothing, or appends exactly one event to the log and reports it as
/// recorded. An input that ends the session leaves that outcome in the
/// state, and once a session has ended no input changes it.
pub proof fn lemma_step_effects(v: SessionView, input: Input)
    ensures
        ({
            let (next, effects) = step(v, input);
            &&& effects.recorded ==> next.events.len() == v.events.len() + 1
                && next.events.take(v.events.len() as int) == v.events
            &&& !effects.recorded ==> next == v && effects == no_effects()
            &&& (effects.ended matches Some(o) ==> next.outcome == Some(o))
            &&& (v.outcome is Some ==> next == v && effects == no_effects())
            &&& next.prompt == v.prompt
            &&& next.word_count == v.word_count
        }),
{
    let (next, effects) = step(v, input);
    if effects.recorded {
        assert(next.events.take(v.events.len() as int) =~= v.events);
    }
}

/// The key an event replays as classifies the way the key that recorded it
/// did: a space replays as a space, `Esc` or `Ctrl-C` typed as characters
/// replay as an interrupt, and every other key as itself.
proof fn lemma_replayed_key_classifies_alike(key: Key, kind: EventKind, actual: Option<char>)
    requires
        classified(key) == Some((kind, actual)),
    ensures
        ({
            let e_key = match kind {
                EventKind::Char => Key::Char(actual->0),
                EventKind::Space => Key::Char(' '),
                EventKind::Backspace => Key::Backspace,
                EventKind::Resize => Key::Resize,
                EventKind::Interrupt => Key::Interrupt,
            };
            classified(e_key) == Some((kind, actual))
        }),
{
}

/// Applying the input an event replays as, in the state the event was
/// recorded in, does exactly what the recorded input did.
pub proof fn lemma_replayed_step(v: SessionView, input: Input)
    requires
        step(v, input).1.recorded,
    ensures
        step(v, input_of_event(step(v, input).0.events.last())) == step(v, input),
{
    let (kind, actual) = classified(input.key)->0;
    lemma_replayed_key_classifies_alike(input.key, kind, actual);
}

/// Running inputs never changes the prompt or the words covered.
pub proof fn lemma_run_keeps_prompt(v: SessionView, inputs: Seq<Input>)
    ensures
        run(v, inputs).prompt == v.prompt,
        run(v, inputs).word_count == v.word_count,
    decreases inputs.len(),
{
    if inputs.len() > 0 {
        lemma_run_keeps_prompt(v, inputs.drop_last());
        lemma_step_effects(run(v, inputs.drop_last()), inputs.last());
    }
}

/// From a state with an empty log, the inputs that the recorded events
/// replay as lead to the same state as the inputs that recorded them.
proof fn lemma_events_replay(v0: SessionView, inputs: Seq<Input>)
    requires
        v0.events.len() == 0,
    ensures
        run(v0, inputs_of(run(v0, inputs).events)) == run(v0, inputs),
    decreases inputs.len(),
{
    if inputs.len() == 0 {
        assert(inputs_of(v0.events) =~= Seq::<Input>::empty());
    } else {
        let before = inputs.drop_last();
        let last = inputs.last();
        let v = run(v0, before);
        lemma_events_replay(v0, before);
        lemma_step_effects(v, last);
        let (next, effects) = step(v, last);
        assert(run(v0, inputs) == next);
        if effects.recorded {
            lemma_replayed_step(v, last);
            let replayed = inputs_of(next.events);
            assert(next.events.drop_last() =~= v.events);
            assert(replayed.drop_last() =~= inputs_of(v.events));
            assert(replayed.last() == input_of_event(next.events.last()));
        }
    }
}

/// A stored event log replays to the identical state: starting from the
/// same prompt and covering the words the session covered, applying the
/// inputs its recorded events replay as gives back the state that recorded
/// them, whatever inputs the session received.
pub proof fn lemma_replay_reproduces(prompt: Seq<Seq<char>>, end: EndCondition, inputs: Seq<Input>)
    requires
        valid_words(prompt),
    ensures
        ({
            let v = run(initial(prompt, end), inputs);
            run(
                initial(prompt, EndCondition::AfterWords(v.word_count as usize)),
                inputs_of(v.events),
            ) == v
        }),
{
    let v0 = initial(prompt, end);
    let v = run(v0, inputs);
    lemma_run_keeps_prompt(v0, inputs);
    assert(initial(prompt, EndCondition::AfterWords(v.word_count as usize)) == v0);
    lemma_events_replay(v0, inputs);
}

/// Every state reached from a fresh session keeps the session invariant,
/// as long as the log's numbering fits its field.
pub proof fn lemma_run_keeps_invariant(prompt: Seq<Seq<char>>, end: EndCondition, inputs: Seq<Input>)
    requires
        valid_words(prompt),
        inputs.len() <= u32::MAX + 1,
    ensures
        view_wf(run(initial(prompt, end), inputs)),
        run(initial(prompt, end), inputs).events.len() <= inputs.len(),
    decreases inputs.len(),
{
    let v0 = initial(prompt, end);
    if inputs.len() == 0 {
        assert(covered_words(prompt.len(), end) >= 1);
    } else {
        lemma_run_keeps_invariant(prompt, end, inputs.drop_last());
        lemma_step_keeps_invariant(run(v0, inputs.drop_last()), inputs.last());
        lemma_step_effects(run(v0, inputs.drop_last()), inputs.last());
    }
}

/// One step keeps the session invariant.
pub proof fn lemma_step_keeps_invariant(v: SessionView, input: Input)
    requires
        view_wf(v),
        v.events.len() <= u32::MAX,
    ensures
        view_wf(step(v, input).0),
{
    let (next, effects) = step(v, input);
    if effects.recorded {
        assert(next.events.len() == v.events.len() + 1);
        assert forall|i: int| 0 <= i < next.events.len() implies (#[trigger] next.events[i]).seq
            == i by {
            if i < v.events.len() {
                assert(next.events[i] == v.events[i]);
            }
        }
    }
}

/// Backspace undoes a character: a printable character typed into a word
/// (not pasted, not past the word's cap of extras, not completing the
/// session) and then a backspace leave every word's text and the caret as
/// they were. Both inputs are recorded.
pub proof fn lemma_backspace_undoes_character(v: SessionView, typed: Input, back: Input, c: char)
    requires
        view_wf(v),
        v.outcome is None,
        typed.key == Key::Char(c),
        classified(Key::Char(c)) == Some((EventKind::Char, Some(c))),
        !typed.in_paste,
        position_of(v) < v.prompt[v.current_word as int].len() + MAX_EXTRAS,
        step(v, typed).0.outcome is None,
        back.key == Key::Backspace,
        !back.in_paste,
    ensures
        step(v, typed).1.recorded,
        step(step(v, typed).0, back).1.recorded,
        step(step(v, typed).0, back).0.typed == v.typed,
        step(step(v, typed).0, back).0.current_word == v.current_word,
{
    let cw = v.current_word as int;
    let t = step(v, typed).0;
    assert(t.typed == v.typed.update(cw, v.typed[cw].push(c)));
    assert(t.current_word == v.current_word);
    assert(position_of(t) > 0);
    let b = step(t, back).0;
    assert(v.typed[cw].push(c).drop_last() =~= v.typed[cw]);
    assert(b.typed =~= v.typed);
}

} // verus!
