//! Why each word of a composed prompt is in it, and a prompt together with
//! what was selected for it.

use vstd::prelude::*;

use crate::prompt::Prompt;
use crate::scheduler::{copy_target, SelectedTarget, TargetRole};
use crate::text::str_equal;

verus! {

/// Why a word is in the prompt.
#[derive(Debug, Clone, Copy, PartialEq, Eq, Structural)]
pub enum WordRole {
    /// Chosen to expose one of the session's targets.
    Targeted,
    /// Drawn from the reference distribution, independent of the user.
    Probe,
}

/// The stable name each word role is stored under.
pub open spec fn word_role_name(role: WordRole) -> Seq<char> {
    match role {
        WordRole::Targeted => "targeted"@,
        WordRole::Probe => "probe"@,
    }
}

/// The word role stored under a name, if any.
pub open spec fn word_role_named(name: Seq<char>) -> Option<WordRole> {
    if name == "targeted"@ {
        Some(WordRole::Targeted)
    } else if name == "probe"@ {
        Some(WordRole::Probe)
    } else {
        None
    }
}

/// Every word role reads back from its stored name.
pub proof fn lemma_word_role_names_round_trip(role: WordRole)
    ensures
        word_role_named(word_role_name(role)) == Some(role),
{
    reveal_strlit("targeted");
    reveal_strlit("probe");
    assert("targeted"@.len() == 8);
    assert("probe"@.len() == 5);
}

impl WordRole {
    /// The role's stable name, as stored. Never renamed.
    pub fn name(self) -> (r: &'static str)
        ensures
            r@ == word_role_name(self),
    {
        match self {
            WordRole::Targeted => "targeted",
            WordRole::Probe => "probe",
        }
    }

    /// The role with the given stored name, if this version knows it.
    pub fn from_name(name: &str) -> (r: Option<WordRole>)
        ensures
            r == word_role_named(name@),
    {
        if str_equal(name, "targeted") {
            Some(WordRole::Targeted)
        } else if str_equal(name, "probe") {
            Some(WordRole::Probe)
        } else {
            None
        }
    }
}

/// One word of a composed prompt: its role and the selected patterns it
/// contains.
#[derive(Debug, Clone, PartialEq, Eq)]
pub struct ComposedWord {
    pub role: WordRole,
    /// The practised patterns (targets and exploration target) the word's
    /// space-padded text contains; empty for a probe.
    pub exposed_targets: Vec<String>,
}

/// Whether a probe overlapped recent targeted practice.
#[derive(Debug, Clone, PartialEq, Eq)]
pub struct Contamination {
    /// The word itself was a targeted word recently.
    pub recently_targeted_word: bool,
    /// The recently practised patterns the word contains.
    pub recently_targeted_patterns: Vec<String>,
}

/// A prompt together with why each word is in it and what was selected for
/// it.
#[derive(Debug, Clone, PartialEq)]
pub struct ComposedPrompt<W> {
    pub prompt: Prompt,
    /// One entry per word of the prompt.
    pub words: Vec<ComposedWord>,
    /// Every target, deferred candidate, and exploration target recorded
    /// for the prompt.
    pub targets: Vec<SelectedTarget<W>>,
}

/// The targets a prompt's words were chosen to expose, in order: targets
/// and exploration targets.
pub open spec fn practised_targets<W>(targets: Seq<SelectedTarget<W>>) -> Seq<SelectedTarget<W>>
    decreases targets.len(),
{
    if targets.len() == 0 {
        seq![]
    } else {
        let before = practised_targets(targets.drop_last());
        let role = targets.last().role;
        if role == TargetRole::Target || role == TargetRole::Explore {
            before.push(targets.last())
        } else {
            before
        }
    }
}

impl<W> ComposedPrompt<W> {
    /// A prompt in which every word is a probe and nothing was selected.
    pub fn probes(prompt: Prompt) -> (r: ComposedPrompt<W>)
        requires
            prompt.wf(),
        ensures
            r.prompt == prompt,
            r.words@.len() == prompt@.len(),
            forall|i: int|
                0 <= i < r.words@.len() ==> (#[trigger] r.words@[i]).role == WordRole::Probe
                    && r.words@[i].exposed_targets@.len() == 0,
            r.targets@.len() == 0,
    {
        let count = prompt.word_count();
        let mut words: Vec<ComposedWord> = Vec::new();
        let mut i: usize = 0;
        while i < count
            invariant
                i <= count,
                words@.len() == i,
                forall|k: int|
                    0 <= k < i ==> (#[trigger] words@[k]).role == WordRole::Probe
                        && words@[k].exposed_targets@.len() == 0,
            decreases count - i,
        {
            words.push(ComposedWord { role: WordRole::Probe, exposed_targets: Vec::new() });
            i += 1;
        }
        ComposedPrompt { prompt, words, targets: Vec::new() }
    }

    /// The patterns the prompt's words were chosen to expose: targets first,
    /// then the exploration target, as they were recorded.
    pub fn practised(&self) -> (r: Vec<SelectedTarget<W>>)
        where
            W: Copy,
        ensures
            r@ == practised_targets(self.targets@),
    {
        let mut out: Vec<SelectedTarget<W>> = Vec::new();
        let mut i: usize = 0;
        while i < self.targets.len()
            invariant
                i <= self.targets@.len(),
                out@ == practised_targets(self.targets@.take(i as int)),
            decreases self.targets@.len() - i,
        {
            proof {
                assert(self.targets@.take(i + 1).drop_last() =~= self.targets@.take(i as int));
            }
            if self.targets[i].role.is_practised() {
                out.push(copy_target(&self.targets[i]));
            }
            i += 1;
        }
        proof {
            assert(self.targets@.take(self.targets@.len() as int) =~= self.targets@);
        }
        out
    }
}

} // verus!
