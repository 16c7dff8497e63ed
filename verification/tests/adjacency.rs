use word_ladder::is_adjacent;

#[test]
fn words_differing_in_one_position_are_adjacent() {
    assert!(is_adjacent("BAG", "BOG"));
    assert!(is_adjacent("DOG", "COG"));
}

#[test]
fn words_differing_in_two_positions_are_not_adjacent() {
    assert!(!is_adjacent("DOG", "COT"));
    assert!(!is_adjacent("BAG", "FOO"));
}

#[test]
fn a_word_is_not_adjacent_to_itself() {
    assert!(!is_adjacent("BAG", "BAG"));
    assert!(!is_adjacent("", ""));
}

#[test]
fn adjacency_is_symmetric_on_sample_words() {
    let pairs = [("BAG", "BOG"), ("DOG", "CAT"), ("FOO", "FOG"), ("A", "AB")];
    for (a, b) in pairs.iter() {
        assert_eq!(is_adjacent(a, b), is_adjacent(b, a));
    }
}

#[test]
fn words_of_different_lengths_are_not_adjacent() {
    assert!(!is_adjacent("DOG", "DOGS"));
    assert!(!is_adjacent("", "A"));
}
