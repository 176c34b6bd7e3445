//! The context features a slot's latency is modelled on, in one fixed order.

use vstd::prelude::*;

verus! {

/// The number of context features.
pub const FEATURE_COUNT: usize = 9;

/// A property of a slot that the context model weighs.
#[derive(Debug, Clone, Copy, PartialEq, Eq, Structural, Hash)]
pub enum Feature {
    FirstOfWord,
    LastOfWord,
    WordLength,
    LogWordFrequency,
    Boundary,
    SameFinger,
    SameHand,
    RowChange,
    KeyDistance,
}

/// Every feature in its fixed order.
pub open spec fn all_features() -> Seq<Feature> {
    seq![
        Feature::FirstOfWord,
        Feature::LastOfWord,
        Feature::WordLength,
        Feature::LogWordFrequency,
        Feature::Boundary,
        Feature::SameFinger,
        Feature::SameHand,
        Feature::RowChange,
        Feature::KeyDistance,
    ]
}

/// A feature's position in the fixed order.
pub open spec fn feature_index(f: Feature) -> nat {
    match f {
        Feature::FirstOfWord => 0,
        Feature::LastOfWord => 1,
        Feature::WordLength => 2,
        Feature::LogWordFrequency => 3,
        Feature::Boundary => 4,
        Feature::SameFinger => 5,
        Feature::SameHand => 6,
        Feature::RowChange => 7,
        Feature::KeyDistance => 8,
    }
}

/// The name a feature is shown and stored under.
pub open spec fn feature_name(f: Feature) -> Seq<char> {
    match f {
        Feature::FirstOfWord => "first_of_word"@,
        Feature::LastOfWord => "last_of_word"@,
        Feature::WordLength => "word_length"@,
        Feature::LogWordFrequency => "log_word_frequency"@,
        Feature::Boundary => "boundary"@,
        Feature::SameFinger => "same_finger"@,
        Feature::SameHand => "same_hand"@,
        Feature::RowChange => "row_change"@,
        Feature::KeyDistance => "key_distance"@,
    }
}

/// The fixed order lists every feature once, each at its own index.
pub proof fn lemma_features_indexed(f: Feature)
    ensures
        Feature::ALL@ == all_features(),
        all_features().len() == FEATURE_COUNT,
        feature_index(f) < FEATURE_COUNT,
        all_features()[feature_index(f) as int] == f,
{
    assert(Feature::ALL@ =~= all_features());
}

impl Feature {
    /// Every feature, in the order of a features vector.
    pub const ALL: [Feature; FEATURE_COUNT] = [
        Feature::FirstOfWord,
        Feature::LastOfWord,
        Feature::WordLength,
        Feature::LogWordFrequency,
        Feature::Boundary,
        Feature::SameFinger,
        Feature::SameHand,
        Feature::RowChange,
        Feature::KeyDistance,
    ];

    /// The feature's position in a features vector.
    pub fn index(self) -> (r: usize)
        ensures
            r == feature_index(self),
    {
        match self {
            Feature::FirstOfWord => 0,
            Feature::LastOfWord => 1,
            Feature::WordLength => 2,
            Feature::LogWordFrequency => 3,
            Feature::Boundary => 4,
            Feature::SameFinger => 5,
            Feature::SameHand => 6,
            Feature::RowChange => 7,
            Feature::KeyDistance => 8,
        }
    }

    /// The name the feature is shown and stored under.
    pub fn name(self) -> (r: &'static str)
        ensures
            r@ == feature_name(self),
    {
        match self {
            Feature::FirstOfWord => "first_of_word",
            Feature::LastOfWord => "last_of_word",
            Feature::WordLength => "word_length",
            Feature::LogWordFrequency => "log_word_frequency",
            Feature::Boundary => "boundary",
            Feature::SameFinger => "same_finger",
            Feature::SameHand => "same_hand",
            Feature::RowChange => "row_change",
            Feature::KeyDistance => "key_distance",
        }
    }
}

} // verus!
