use typ::model::context::{Feature, FEATURE_COUNT};

#[test]
fn features_are_named_and_indexed_in_one_fixed_order() {
    assert_eq!(Feature::ALL.len(), FEATURE_COUNT);
    for (i, feature) in Feature::ALL.iter().enumerate() {
        assert_eq!(feature.index(), i);
    }
    let names: Vec<&str> = Feature::ALL.iter().map(|f| f.name()).collect();
    assert_eq!(
        names,
        [
            "first_of_word",
            "last_of_word",
            "word_length",
            "log_word_frequency",
            "boundary",
            "same_finger",
            "same_hand",
            "row_change",
            "key_distance",
        ]
    );
}
