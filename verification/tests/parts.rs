use shortest_path::{
    compare_words, find_path, hamming_distance, load_dictionary, validate, Error, Node, Placement,
};

#[test]
fn distance_counts_differing_positions() {
    assert_eq!(hamming_distance("cat", "cat"), 0);
    assert_eq!(hamming_distance("cat", "cot"), 1);
    assert_eq!(hamming_distance("cat", "dog"), 3);
    assert_eq!(hamming_distance("name", "norm"), 3);
    assert_eq!(hamming_distance("distance", "keyboard"), 8);
    assert_eq!(hamming_distance("", ""), 0);
}

#[test]
fn distance_is_symmetric() {
    assert_eq!(hamming_distance("bone", "type"), hamming_distance("type", "bone"));
    assert_eq!(hamming_distance("bone", "type"), 3);
}

#[test]
fn distance_stops_at_the_shorter_word() {
    assert_eq!(hamming_distance("cat", "cats"), 0);
    assert_eq!(hamming_distance("cats", "cot"), 1);
    assert_eq!(hamming_distance("", "abc"), 0);
}

#[test]
fn distance_goes_by_characters() {
    assert_eq!(hamming_distance("été", "ete"), 2);
    assert_eq!(hamming_distance("naïve", "naive"), 1);
}

#[test]
fn words_compare_by_characters() {
    assert_eq!(compare_words("cat", "cot"), Placement::Before);
    assert_eq!(compare_words("cot", "cat"), Placement::After);
    assert_eq!(compare_words("cat", "cat"), Placement::Same);
    assert_eq!(compare_words("ca", "cat"), Placement::Before);
    assert_eq!(compare_words("cat", "ca"), Placement::After);
    assert_eq!(compare_words("", ""), Placement::Same);
    assert_eq!(compare_words("z", "é"), Placement::Before);
}

#[test]
fn dictionary_keeps_one_length_once_in_order() {
    let corpus = ["dog", "cat", "fish", "cot", "cat", "a", "dog", "cog"];
    let dictionary = load_dictionary(&corpus, 3);
    assert_eq!(dictionary.len(), 4);
    let words: Vec<&str> = (0..dictionary.len()).map(|i| dictionary.word(i)).collect();
    assert_eq!(words, ["cat", "cog", "cot", "dog"]);
    assert!(dictionary.contains("cat"));
    assert!(dictionary.contains("dog"));
    assert!(!dictionary.contains("fish"));
    assert!(!dictionary.contains("a"));
    assert!(!dictionary.contains("cab"));
}

#[test]
fn dictionary_of_an_unused_length_is_empty() {
    let corpus = ["dog", "cat"];
    let dictionary = load_dictionary(&corpus, 5);
    assert_eq!(dictionary.len(), 0);
    assert!(!dictionary.contains("dog"));
}

#[test]
fn dictionary_length_counts_characters() {
    let corpus = ["été", "etes", "ete"];
    let dictionary = load_dictionary(&corpus, 3);
    assert_eq!(dictionary.len(), 2);
    assert!(dictionary.contains("été"));
    assert!(dictionary.contains("ete"));
}

#[test]
fn dictionary_remove_takes_one_word_out() {
    let corpus = ["dog", "cat", "cot", "cog"];
    let mut dictionary = load_dictionary(&corpus, 3);
    assert!(dictionary.remove("cot"));
    assert!(!dictionary.contains("cot"));
    assert_eq!(dictionary.len(), 3);
    assert!(!dictionary.remove("cot"));
    assert!(!dictionary.remove("pig"));
    assert_eq!(dictionary.len(), 3);
    let words: Vec<&str> = (0..dictionary.len()).map(|i| dictionary.word(i)).collect();
    assert_eq!(words, ["cat", "cog", "dog"]);
}

#[test]
fn root_node_has_no_parent() {
    let root = Node::new("cat");
    assert_eq!(root.data, "cat");
    assert!(root.parent.is_none());
    assert_eq!(root.path(), ["cat"]);
}

#[test]
fn child_node_points_back() {
    let root = Node::new("cat");
    let child = Node::with_parent("cot", root.clone());
    let grandchild = Node::with_parent("cog", child.clone());
    assert_eq!(grandchild.data, "cog");
    assert_eq!(grandchild.parent.as_ref().unwrap().data, "cot");
    assert_eq!(child.parent.as_ref().unwrap().data, "cat");
    assert_eq!(grandchild.path(), ["cat", "cot", "cog"]);
    assert_eq!(child.path(), ["cat", "cot"]);
}

#[test]
fn nodes_hold_any_value() {
    let root = Node::new(1u32);
    let child = Node::with_parent(2u32, root);
    assert_eq!(child.data, 2);
    assert_eq!(child.parent.as_ref().unwrap().data, 1);
}

#[test]
fn validate_hands_back_the_dictionary() {
    let corpus = ["dog", "cat", "fish", "cot", "cog"];
    let dictionary = validate(&corpus, "cat", "dog").unwrap();
    assert_eq!(dictionary.len(), 4);
    assert!(dictionary.contains("cat"));
    assert!(!dictionary.contains("fish"));
}

#[test]
fn validate_reports_each_failure() {
    let corpus = ["dog", "cat", "fish"];
    assert!(matches!(
        validate(&corpus, "cat", "fish"),
        Err(Error::WordsUnequalLen { .. })
    ));
    match validate(&corpus, "cow", "cat") {
        Err(Error::NotInDictionary { word }) => assert_eq!(word, "cow"),
        _ => panic!("the start word is not in the dictionary"),
    }
    match validate(&corpus, "cat", "cow") {
        Err(Error::NotInDictionary { word }) => assert_eq!(word, "cow"),
        _ => panic!("the end word is not in the dictionary"),
    }
}

#[test]
fn find_path_searches_a_given_dictionary() {
    let corpus = ["dog", "cat", "cot", "cog", "pig"];
    let dictionary = load_dictionary(&corpus, 3);
    assert_eq!(
        find_path(dictionary, "cat", "dog").unwrap(),
        ["cat", "cot", "cog", "dog"]
    );
    let dictionary = load_dictionary(&corpus, 3);
    assert!(matches!(
        find_path(dictionary, "cat", "pig"),
        Err(Error::NoPathExists { .. })
    ));
    let dictionary = load_dictionary(&corpus, 3);
    assert_eq!(find_path(dictionary, "pig", "pig").unwrap(), ["pig"]);
}
