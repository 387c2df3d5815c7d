use ewm_state_machine::morphisms::conv::{channel_name, seed, ConvSpec};

#[test]
fn seed_scheme_shares_g1_and_partitions_the_rest() {
    // The 1×1 channel is the same atom space in every dimension.
    assert_eq!(seed(ConvSpec::new(1, 1)), 0);
    assert_eq!(seed(ConvSpec::new(1, 2)), 0);
    // dim=1: n-grams (and the 4-gram order channel).
    assert_eq!(seed(ConvSpec::new(2, 1)), 1);
    assert_eq!(seed(ConvSpec::new(3, 1)), 2);
    assert_eq!(seed(ConvSpec::new(4, 1)), 3);
    // dim=2: 2D convolutions.
    assert_eq!(seed(ConvSpec::new(2, 2)), 4);
    assert_eq!(seed(ConvSpec::new(3, 2)), 5);
    assert_eq!(seed(ConvSpec::new(4, 2)), 6);
}

#[test]
fn channel_names_follow_the_table() {
    assert_eq!(channel_name(1, 1), "G1");
    assert_eq!(channel_name(1, 2), "G1");
    assert_eq!(channel_name(2, 1), "G2_1d");
    assert_eq!(channel_name(3, 2), "G3_2d");
    assert_eq!(channel_name(4, 2), "G4_2d");
}

#[test]
fn seeds_are_given_for_any_pair_of_bytes() {
    assert_eq!(seed(ConvSpec::new(255, 255)), 254 * 3 + 254);
    assert_eq!(seed(ConvSpec::new(2, 200)), 199 * 3 + 1);
    assert_eq!(seed(ConvSpec::new(0, 255)), 0);
    assert_eq!(seed(ConvSpec::new(3, 0)), 2);
}
