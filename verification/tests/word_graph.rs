use word_ladder::WordGraph;

fn dictionary() -> Vec<String> {
    [
        "BAG", "BOG", "BAT", "BUG", "CAT", "COG", "COT", "DOG", "FOG", "FIG", "FAT", "FOO",
        "QUX",
    ]
    .iter()
    .map(|s| String::from(*s))
    .collect()
}

#[test]
fn not_contain_a_word_when_empty() {
    let graph = WordGraph::new();
    assert_eq!(graph.get(String::from("BAG")), None)
}

#[test]
fn contain_a_word_when_added() {
    let mut graph = WordGraph::new();
    graph.add(String::from("BAG"));
    assert_eq!(graph.get(String::from("BAG")), Some(&String::from("BAG")))
}

#[test]
fn not_contain_a_word_when_removed() {
    let mut graph = WordGraph::new();
    graph.add(String::from("BAG"));
    assert_eq!(graph.get(String::from("BAG")), Some(&String::from("BAG")));
    graph.remove(String::from("BAG"));
    assert_eq!(graph.get(String::from("BAG")), None)
}

#[test]
fn change_a_word_with_a_parent_word() {
    let mut graph = WordGraph::new();
    graph.add(String::from("BAG"));
    assert_eq!(graph.get(String::from("BAG")), Some(&String::from("BAG")));
    graph.update(String::from("BAG"), String::from("BUG"));
    assert_eq!(graph.get(String::from("BAG")), Some(&String::from("BUG")))
}

#[test]
fn contain_words_when_filled_from_an_iterator() {
    let words: Vec<String> = dictionary();
    let graph = WordGraph::from_words(words);

    assert_eq!(graph.get(String::from("BAG")), Some(&String::from("BAG")));
    assert_eq!(graph.get(String::from("COG")), Some(&String::from("COG")))
}

#[test]
fn find_the_adjacent_words_of_a_word() {
    let words: Vec<String> = dictionary();
    let mut graph = WordGraph::from_words(words);

    let adjs: Vec<String> = ["BOG", "COG", "FOG"]
        .iter()
        .map(|s| String::from(*s))
        .collect();
    assert_eq!(graph.adjacents(&String::from("DOG")), Some(adjs));
}

#[test]
fn find_the_ladder_for_start_and_target_words() {
    let words: Vec<String> = dictionary();
    let mut graph = WordGraph::from_words(words);
    let result: Vec<String> = ["DOG", "COG"].iter().map(|s| String::from(*s)).collect();
    assert_eq!(
        graph.ladder(String::from("DOG"), String::from("COG")),
        Some(result)
    )
}

#[test]
fn find_no_ladder_to_an_isolated_word() {
    let mut graph = WordGraph::from_words(dictionary());
    assert_eq!(graph.ladder(String::from("DOG"), String::from("QUX")), None)
}

#[test]
fn find_no_ladder_to_an_absent_word() {
    let mut graph = WordGraph::from_words(dictionary());
    assert_eq!(graph.ladder(String::from("DOG"), String::from("ZZZ")), None)
}

#[test]
fn find_the_single_word_ladder_to_the_origin_itself() {
    let mut graph = WordGraph::from_words(dictionary());
    assert_eq!(
        graph.ladder(String::from("FOO"), String::from("FOO")),
        Some(vec![String::from("FOO")])
    )
}

#[test]
fn find_the_single_word_ladder_outside_the_dictionary() {
    let mut graph = WordGraph::new();
    assert_eq!(
        graph.ladder(String::from("AAA"), String::from("AAA")),
        Some(vec![String::from("AAA")])
    )
}

#[test]
fn find_a_two_step_ladder() {
    let mut graph = WordGraph::from_words(dictionary());
    let result: Vec<String> = ["DOG", "FOG", "FIG"]
        .iter()
        .map(|s| String::from(*s))
        .collect();
    assert_eq!(
        graph.ladder(String::from("DOG"), String::from("FIG")),
        Some(result)
    )
}

#[test]
fn find_one_adjacent_word_for_a_corner_word() {
    let mut graph = WordGraph::from_words(dictionary());
    assert_eq!(
        graph.adjacents(&String::from("FOO")),
        Some(vec![String::from("FOG")])
    );
}

#[test]
fn leave_the_graph_alone_when_updating_an_absent_word() {
    let mut graph = WordGraph::new();
    graph.update(String::from("BAG"), String::from("BUG"));
    assert_eq!(graph.get(String::from("BAG")), None)
}

#[test]
fn reconstruct_a_path_along_parent_links() {
    let mut graph = WordGraph::new();
    graph.add(String::from("BUG"));
    graph.add(String::from("BAG"));
    graph.update(String::from("BAG"), String::from("BUG"));
    assert_eq!(
        graph.path(&String::from("BAG")),
        Some(vec![String::from("BUG"), String::from("BAG")])
    );
    assert_eq!(graph.path(&String::from("COG")), None)
}
