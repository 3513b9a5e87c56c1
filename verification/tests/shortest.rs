use shortest_path::{hamming_distance, shortest_path, Error};
use std::collections::{HashMap, VecDeque};

fn grid() -> Vec<&'static str> {
    vec![
        "aaa", "aab", "aba", "abb", "baa", "bab", "bba", "bbb", "abc", "bbc", "cbc", "ccc", "xyz",
        "xyy", "aaaa", "aaab",
    ]
}

/// The number of words on a shortest ladder, found by a plain search that
/// marks words when it first meets them.
fn fewest_words(words: &[&str], start: &str, end: &str) -> Option<usize> {
    let mut seen: HashMap<&str, usize> = HashMap::new();
    let mut queue: VecDeque<&str> = VecDeque::new();
    seen.insert(start, 1);
    queue.push_back(start);
    while let Some(word) = queue.pop_front() {
        let count = seen[word];
        if word == end {
            return Some(count);
        }
        for &next in words {
            if next.len() == word.len()
                && !seen.contains_key(next)
                && word.chars().zip(next.chars()).filter(|(a, b)| a != b).count() == 1
            {
                seen.insert(next, count + 1);
                queue.push_back(next);
            }
        }
    }
    None
}

#[test]
fn every_step_changes_one_character() {
    let words = grid();
    for &start in &words {
        for &end in &words {
            if let Ok(path) = shortest_path(&words, start, end) {
                assert_eq!(path.first().unwrap(), start);
                assert_eq!(path.last().unwrap(), end);
                for word in &path {
                    assert!(words.contains(&word.as_str()));
                    assert_eq!(word.chars().count(), start.chars().count());
                }
                for pair in path.windows(2) {
                    assert_eq!(hamming_distance(&pair[0], &pair[1]), 1);
                }
            }
        }
    }
}

#[test]
fn no_ladder_is_shorter() {
    let words = grid();
    for &start in &words {
        for &end in &words {
            let found = shortest_path(&words, start, end);
            if start.len() != end.len() {
                assert!(matches!(found, Err(Error::WordsUnequalLen { .. })));
                continue;
            }
            match fewest_words(&words, start, end) {
                Some(count) => assert_eq!(found.unwrap().len(), count),
                None => assert!(matches!(found, Err(Error::NoPathExists { .. }))),
            }
        }
    }
}

#[test]
fn a_word_leads_to_itself() {
    let words = grid();
    for &word in &words {
        assert_eq!(shortest_path(&words, word, word).unwrap(), [word]);
    }
}

#[test]
fn unequal_lengths_are_refused_whatever_the_dictionary_holds() {
    let words = grid();
    for (start, end) in [("aaa", "aaaa"), ("aaaa", "aaa"), ("zzz", "aaaa"), ("q", "")] {
        assert!(matches!(
            shortest_path(&words, start, end),
            Err(Error::WordsUnequalLen { .. })
        ));
    }
}

#[test]
fn missing_words_are_named_start_first() {
    let words = grid();
    for (start, end, missing) in [
        ("zzz", "aaa", "zzz"),
        ("aaa", "zzz", "zzz"),
        ("zzz", "yyy", "zzz"),
        ("yyy", "zzz", "yyy"),
    ] {
        match shortest_path(&words, start, end) {
            Err(Error::NotInDictionary { word }) => assert_eq!(word, missing),
            _ => panic!("a missing word must be named"),
        }
    }
}

#[test]
fn opposite_corners_of_a_cube() {
    let words = grid();
    assert_eq!(
        shortest_path(&words, "aaa", "bbb").unwrap(),
        ["aaa", "aab", "abb", "bbb"]
    );
    assert_eq!(
        shortest_path(&words, "aaa", "ccc").unwrap(),
        ["aaa", "aba", "abc", "cbc", "ccc"]
    );
    assert!(matches!(
        shortest_path(&words, "aaa", "xyz"),
        Err(Error::NoPathExists { .. })
    ));
}
