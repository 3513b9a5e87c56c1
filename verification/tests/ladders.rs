use shortest_path::{shortest_path, Error};

fn corpus() -> Vec<&'static str> {
    "cat cot cog dog bat bad dot cad can car van ban bar bag big dig cut cub \
     name nare nard nord norm bone tone tope type fish cone came nape note nope tome dome \
     distance keyboard a it house ladder cat dog norm"
        .split_whitespace()
        .collect()
}

#[test]
fn cat_dog() {
    assert_eq!(
        shortest_path(&corpus(), "cat", "dog").unwrap(),
        &["cat", "cot", "cog", "dog"]
    );
}

#[test]
fn van_car() {
    assert_eq!(
        shortest_path(&corpus(), "van", "car").unwrap(),
        &["van", "can", "car"]
    );
}

#[test]
fn name_norm() {
    assert_eq!(
        shortest_path(&corpus(), "name", "norm").unwrap(),
        &["name", "nare", "nard", "nord", "norm"]
    );
}

#[test]
fn bone_type() {
    assert_eq!(
        shortest_path(&corpus(), "bone", "type").unwrap(),
        &["bone", "tone", "tope", "type"]
    );
}

#[test]
fn equal_start_end() {
    assert_eq!(shortest_path(&corpus(), "cat", "cat").unwrap(), &["cat"]);
}

#[test]
fn not_in_dictionary() {
    assert!(matches!(
        shortest_path(&corpus(), "cat", "bwq"),
        Err(Error::NotInDictionary { .. })
    ));
}

#[test]
fn unequal_length() {
    assert!(matches!(
        shortest_path(&corpus(), "cat", "fish"),
        Err(Error::WordsUnequalLen { .. })
    ));
}

#[test]
fn no_path_exists() {
    assert!(matches!(
        shortest_path(&corpus(), "distance", "keyboard"),
        Err(Error::NoPathExists { .. })
    ));
}

#[test]
fn not_in_dictionary_names_the_end_word() {
    match shortest_path(&corpus(), "cat", "bwq") {
        Err(Error::NotInDictionary { word }) => assert_eq!(word, "bwq"),
        other => panic!("unexpected result: {:?}", other),
    }
}

#[test]
fn not_in_dictionary_checks_the_start_word_first() {
    match shortest_path(&corpus(), "bwq", "xyz") {
        Err(Error::NotInDictionary { word }) => assert_eq!(word, "bwq"),
        other => panic!("unexpected result: {:?}", other),
    }
    match shortest_path(&corpus(), "bwq", "cat") {
        Err(Error::NotInDictionary { word }) => assert_eq!(word, "bwq"),
        other => panic!("unexpected result: {:?}", other),
    }
}

#[test]
fn equal_words_outside_the_dictionary_are_rejected() {
    match shortest_path(&corpus(), "bwq", "bwq") {
        Err(Error::NotInDictionary { word }) => assert_eq!(word, "bwq"),
        other => panic!("unexpected result: {:?}", other),
    }
}

#[test]
fn unequal_length_carries_both_words() {
    match shortest_path(&corpus(), "cat", "fish") {
        Err(Error::WordsUnequalLen {
            start_word,
            end_word,
        }) => {
            assert_eq!(start_word, "cat");
            assert_eq!(end_word, "fish");
        }
        other => panic!("unexpected result: {:?}", other),
    }
}

#[test]
fn unequal_length_comes_before_the_dictionary() {
    assert!(matches!(
        shortest_path(&corpus(), "bwq", "zzzzz"),
        Err(Error::WordsUnequalLen { .. })
    ));
    assert!(matches!(
        shortest_path(&[], "cat", "fish"),
        Err(Error::WordsUnequalLen { .. })
    ));
}

#[test]
fn no_path_carries_both_words() {
    match shortest_path(&corpus(), "distance", "keyboard") {
        Err(Error::NoPathExists {
            start_word,
            end_word,
        }) => {
            assert_eq!(start_word, "distance");
            assert_eq!(end_word, "keyboard");
        }
        other => panic!("unexpected result: {:?}", other),
    }
}

#[test]
fn empty_corpus_holds_no_word() {
    assert!(matches!(
        shortest_path(&[], "cat", "dog"),
        Err(Error::NotInDictionary { .. })
    ));
}

#[test]
fn adjacent_words_give_two_words() {
    assert_eq!(
        shortest_path(&corpus(), "cat", "cot").unwrap(),
        &["cat", "cot"]
    );
}

#[test]
fn longer_ladder_through_shared_neighbours() {
    assert_eq!(
        shortest_path(&corpus(), "big", "cub").unwrap(),
        &["big", "bag", "bat", "cat", "cut", "cub"]
    );
}

#[test]
fn words_of_other_lengths_are_no_steps() {
    let words = ["ab", "abc", "ac", "bc", "b"];
    assert_eq!(shortest_path(&words, "ab", "bc").unwrap(), &["ab", "ac", "bc"]);
}

#[test]
fn ties_go_to_the_earlier_word() {
    let words = ["aa", "ab", "ba", "bb"];
    assert_eq!(shortest_path(&words, "aa", "bb").unwrap(), &["aa", "ab", "bb"]);
    let reversed = ["bb", "ba", "ab", "aa"];
    assert_eq!(
        shortest_path(&reversed, "aa", "bb").unwrap(),
        &["aa", "ab", "bb"]
    );
}

#[test]
fn length_counts_characters() {
    let words = ["été", "éte", "ete", "etc"];
    assert_eq!(
        shortest_path(&words, "été", "etc").unwrap(),
        &["été", "éte", "ete", "etc"]
    );
    assert!(matches!(
        shortest_path(&words, "été", "etes"),
        Err(Error::WordsUnequalLen { .. })
    ));
}

#[test]
fn empty_words_meet_at_once() {
    assert_eq!(shortest_path(&[""], "", "").unwrap(), &[""]);
    match shortest_path(&["a"], "", "") {
        Err(Error::NotInDictionary { word }) => assert_eq!(word, ""),
        other => panic!("unexpected result: {:?}", other),
    }
}
