//! The search for a shortest ladder between two words.

use crate::dictionary::{load_dictionary, words_of_length, Dictionary};
use crate::distance::{adjacent, hamming_distance};
use crate::error::Error;
use crate::frontier::{
    children_of, lemma_no_shorter_ladder, lemma_none_earlier, lemma_search_begins,
    lemma_search_exhausted, lemma_search_expands, queued, search_invariant,
};
use crate::ladder::{
    connects, is_first, is_ladder, is_shortest, ladder_precedes, lemma_extend, lemma_single_word,
    reachable,
};
use crate::measure::{lemma_expansion_lowers_weight, queue_weight};
use crate::node::Node;
use crate::order::{compare_words, precedes, Placement};
use std::collections::VecDeque;
use std::rc::Rc;
use vstd::prelude::*;
use vstd::set_lib::lemma_len_subset;

verus! {

/// The ladders that the nodes of a queue stand for, in the order of the
/// queue.
pub open spec fn trails<'a>(queue: Seq<Rc<Node<&'a str>>>) -> Seq<Seq<Seq<char>>> {
    queue.map_values(|node: Rc<Node<&'a str>>| node.trail())
}

/// Whether two words hold the same characters.
fn same_word(a: &str, b: &str) -> (same: bool)
    ensures
        same == (a@ == b@),
{
    match compare_words(a, b) {
        Placement::Same => true,
        _ => false,
    }
}

/// The words of `corpus` that have as many characters as `word`: the
/// dictionary in which a ladder from `word` is looked for.
pub open spec fn dictionary_for(corpus: &[&str], word: &str) -> Set<Seq<char>> {
    words_of_length(corpus.deep_view(), word@.len())
}

/// Checks the two words before a search: they must have the same number of
/// characters, and the dictionary of that length, taken from `corpus`, must
/// hold first the start word and then the end word. Returns that dictionary.
pub fn validate<'a>(corpus: &[&'a str], start_word: &str, end_word: &str) -> (result: Result<
    Dictionary<'a>,
    Error,
>)
    ensures
        match result {
            Ok(dictionary) => {
                &&& start_word@.len() == end_word@.len()
                &&& dictionary.wf()
                &&& dictionary.word_length() == start_word@.len()
                &&& dictionary@ == dictionary_for(corpus, start_word)
                &&& dictionary@.contains(start_word@)
                &&& dictionary@.contains(end_word@)
            },
            Err(Error::WordsUnequalLen { start_word: from, end_word: to }) => {
                &&& start_word@.len() != end_word@.len()
                &&& from@ == start_word@
                &&& to@ == end_word@
            },
            Err(Error::NotInDictionary { word }) => {
                &&& start_word@.len() == end_word@.len()
                &&& if dictionary_for(corpus, start_word).contains(start_word@) {
                    !dictionary_for(corpus, start_word).contains(end_word@) && word@ == end_word@
                } else {
                    word@ == start_word@
                }
            },
            Err(Error::NoPathExists { .. }) => false,
        },
{
    let length = start_word.unicode_len();
    if length != end_word.unicode_len() {
        return Err(
            Error::WordsUnequalLen {
                start_word: start_word.to_string(),
                end_word: end_word.to_string(),
            },
        );
    }
    let dictionary = load_dictionary(corpus, length);
    if !dictionary.contains(start_word) {
        return Err(Error::NotInDictionary { word: start_word.to_string() });
    }
    if !dictionary.contains(end_word) {
        return Err(Error::NotInDictionary { word: end_word.to_string() });
    }
    Ok(dictionary)
}

/// Searches `dictionary` for the shortest ladder from `start_word` to
/// `end_word`, both of which it must hold.
///
/// Equal words give the ladder of that one word, without a search.
/// Otherwise the search goes level by level. It keeps a queue of nodes,
/// which at first holds the start word alone. It takes the node at the head
/// of the queue, takes that node's word out of the dictionary, and walks what
/// is left of the dictionary in order. Each word adjacent to the node's word
/// becomes a child of the node. If that word is the end word, the way from
/// the root to the child is the answer; if not, the child joins the queue at
/// the back. When the queue runs empty, no ladder exists.
///
/// Of the ladders with the fewest words, the answer is the first: at the
/// first place where another one differs from it, the other holds the later
/// word.
pub fn find_path<'a>(dictionary: Dictionary<'a>, start_word: &'a str, end_word: &str) -> (result:
    Result<Vec<String>, Error>)
    requires
        dictionary.wf(),
        dictionary@.contains(start_word@),
        dictionary@.contains(end_word@),
    ensures
        match result {
            Ok(path) => {
                &&& is_shortest(path.deep_view(), dictionary@, start_word@, end_word@)
                &&& is_first(path.deep_view(), dictionary@, start_word@, end_word@)
            },
            Err(Error::NoPathExists { start_word: from, end_word: to }) => {
                &&& !reachable(dictionary@, start_word@, end_word@)
                &&& from@ == start_word@
                &&& to@ == end_word@
            },
            Err(_) => false,
        },
        result is Ok <==> reachable(dictionary@, start_word@, end_word@),
        start_word@ == end_word@ ==> (result matches Ok(path) && path.deep_view()
            == seq![start_word@]),
{
    let ghost all = dictionary@;
    let ghost length = dictionary.word_length();
    proof {
        dictionary.lemma_view();
    }
    if same_word(start_word, end_word) {
        let mut path: Vec<String> = Vec::new();
        path.push(start_word.to_string());
        proof {
            assert(path.deep_view() =~= seq![start_word@]);
            lemma_single_word(all, start_word@);
        }
        return Ok(path);
    }
    let mut unvisited = dictionary;
    let mut frontier: VecDeque<Rc<Node<&'a str>>> = VecDeque::new();
    let root = Node::new(start_word);
    proof {
        root.lemma_trail();
    }
    frontier.push_back(root);
    proof {
        assert(trails(frontier@) =~= seq![seq![start_word@]]);
        lemma_search_begins(all, start_word@, end_word@);
    }
    loop
        invariant
            all == dictionary@,
            unvisited.wf(),
            unvisited.word_length() == length,
            forall|word: Seq<char>| all.contains(word) ==> word.len() == length,
            search_invariant(all, unvisited@, trails(frontier@), start_word@, end_word@),
        ensures
            frontier@.len() == 0,
        decreases queue_weight(unvisited@, trails(frontier@)),
    {
        let ghost queue = trails(frontier@);
        let ghost before = unvisited@;
        let current = match frontier.pop_front() {
            Some(node) => node,
            None => {
                break ;
            },
        };
        let ghost parent = current.trail();
        proof {
            unvisited.lemma_view();
            current.lemma_trail();
            assert(queue[0] == parent);
            assert(trails(frontier@) =~= queue.drop_first());
            assert(is_ladder(parent, all));
            assert(all.contains(parent[parent.len() - 1]));
            lemma_no_shorter_ladder(all, before, queue, start_word@, end_word@);
            lemma_none_earlier(all, before, queue, start_word@, end_word@);
        }
        unvisited.remove(current.data);
        let ghost children: Seq<Seq<Seq<char>>> = Seq::empty();
        let mut index: usize = 0;
        proof {
            unvisited.lemma_view();
            assert(queue.drop_first() + children =~= queue.drop_first());
        }
        while index < unvisited.len()
            invariant
                all == dictionary@,
                start_word@ != end_word@,
                queue.len() > 0,
                index <= unvisited.entries().len(),
                unvisited.wf(),
                unvisited.word_length() == length,
                unvisited@ == before.remove(parent.last()),
                unvisited@.finite(),
                unvisited@.len() == unvisited.entries().len(),
                unvisited@.subset_of(all),
                forall|word: Seq<char>| all.contains(word) ==> word.len() == length,
                forall|i: int|
                    0 <= i < unvisited.entries().len() ==> unvisited@.contains(
                        #[trigger] unvisited.entries()[i],
                    ),
                parent == current.trail(),
                parent.last() == current.data@,
                parent.first() == start_word@,
                is_ladder(parent, all),
                all.contains(parent.last()),
                forall|path: Seq<Seq<char>>| #[trigger]
                    connects(path, all, start_word@, end_word@) ==> path.len() > parent.len(),
                forall|path: Seq<Seq<char>>|
                    #[trigger] connects(path, all, start_word@, end_word@) && path.len()
                        == parent.len() + 1 ==> !ladder_precedes(path, parent.push(end_word@)),
                forall|k: int, i: int|
                    0 <= k < children.len() && index <= i < unvisited.entries().len() ==> precedes(
                        (#[trigger] children[k]).last(),
                        #[trigger] unvisited.entries()[i],
                    ),
                forall|k: int, m: int|
                    0 <= k < m < children.len() ==> precedes(
                        (#[trigger] children[k]).last(),
                        (#[trigger] children[m]).last(),
                    ),
                trails(frontier@) == queue.drop_first() + children,
                children.len() <= index,
                forall|k: int|
                    0 <= k < children.len() ==> {
                        &&& #[trigger] children[k] == parent.push(children[k].last())
                        &&& unvisited@.contains(children[k].last())
                        &&& adjacent(parent.last(), children[k].last())
                        &&& children[k].last() != end_word@
                    },
                forall|i: int|
                    0 <= i < index && adjacent(parent.last(), #[trigger] unvisited.entries()[i])
                        ==> queued(children, unvisited.entries()[i]),
            decreases unvisited.entries().len() - index,
        {
            let word = unvisited.word(index);
            proof {
                assert(unvisited@.contains(unvisited.entries()[index as int]));
            }
            if hamming_distance(current.data, word) == 1 {
                let child = Node::with_parent(word, current.clone());
                proof {
                    child.lemma_trail();
                    lemma_extend(parent, all, word@);
                }
                if same_word(word, end_word) {
                    let path = child.path();
                    return Ok(path);
                }
                let ghost waiting = frontier@;
                frontier.push_back(child);
                proof {
                    let earlier = children;
                    children = children.push(child.trail());
                    assert(frontier@ == waiting.push(child));
                    assert(trails(frontier@) =~= trails(waiting).push(child.trail()));
                    assert(trails(frontier@) =~= queue.drop_first() + children);
                    assert(children[earlier.len() as int].last() == word@);
                    assert forall|i: int|
                        0 <= i < index + 1 && adjacent(
                            parent.last(),
                            #[trigger] unvisited.entries()[i],
                        ) implies queued(children, unvisited.entries()[i]) by {
                        if i < index {
                            let k = choose|k: int|
                                0 <= k < earlier.len() && (#[trigger] earlier[k]).last()
                                    == unvisited.entries()[i];
                            assert(children[k] == earlier[k]);
                        }
                    }
                    assert forall|k: int| 0 <= k < children.len() implies {
                        &&& #[trigger] children[k] == parent.push(children[k].last())
                        &&& unvisited@.contains(children[k].last())
                        &&& adjacent(parent.last(), children[k].last())
                        &&& children[k].last() != end_word@
                    } by {
                        if k < earlier.len() {
                            assert(children[k] == earlier[k]);
                        }
                    }
                    assert forall|k: int, i: int|
                        0 <= k < children.len() && index + 1 <= i
                            < unvisited.entries().len() implies precedes(
                        (#[trigger] children[k]).last(),
                        #[trigger] unvisited.entries()[i],
                    ) by {
                        if k < earlier.len() {
                            assert(children[k] == earlier[k]);
                        } else {
                            assert(precedes(
                                unvisited.entries()[index as int],
                                unvisited.entries()[i],
                            ));
                        }
                    }
                    assert forall|k: int, m: int| 0 <= k < m < children.len() implies precedes(
                        (#[trigger] children[k]).last(),
                        (#[trigger] children[m]).last(),
                    ) by {
                        assert(children[k] == earlier[k]);
                        if m < earlier.len() {
                            assert(children[m] == earlier[m]);
                        } else {
                            assert(precedes(earlier[k].last(), unvisited.entries()[index as int]));
                        }
                    }
                }
            }
            index += 1;
        }
        proof {
            assert(children_of(parent, unvisited@, children, end_word@)) by {
                assert forall|word: Seq<char>|
                    unvisited@.contains(word) && #[trigger] adjacent(
                        parent.last(),
                        word,
                    ) implies queued(children, word) by {
                    let i = choose|i: int|
                        0 <= i < unvisited.entries().len() && unvisited.entries()[i] == word;
                    assert(adjacent(parent.last(), unvisited.entries()[i]));
                }
            }
            lemma_search_expands(all, before, queue, start_word@, end_word@, children);
            lemma_len_subset(before, all);
            lemma_expansion_lowers_weight(before, queue, children);
        }
    }
    proof {
        assert(trails(frontier@) =~= Seq::empty());
        lemma_search_exhausted(all, unvisited@, trails(frontier@), start_word@, end_word@);
    }
    Err(Error::NoPathExists { start_word: start_word.to_string(), end_word: end_word.to_string() })
}

/// Finds the shortest ladder from `start_word` to `end_word` among the words
/// of `corpus`: a sequence of words that begins with the one and ends with
/// the other, in which every word comes from the corpus, has as many
/// characters as the two, and differs from the word before it in exactly one
/// position. Of the ladders with the fewest words it returns the first in
/// the order of the dictionary.
///
/// Fails with `WordsUnequalLen` when the two words differ in length; with
/// `NotInDictionary` when the corpus lacks the start word or, the start word
/// being there, the end word; and with `NoPathExists` when it holds both and
/// no ladder leads from the one to the other.
pub fn shortest_path<'a>(corpus: &[&'a str], start_word: &'a str, end_word: &str) -> (result:
    Result<Vec<String>, Error>)
    ensures
        match result {
            Ok(path) => {
                &&& start_word@.len() == end_word@.len()
                &&& is_shortest(
                    path.deep_view(),
                    dictionary_for(corpus, start_word),
                    start_word@,
                    end_word@,
                )
                &&& is_first(
                    path.deep_view(),
                    dictionary_for(corpus, start_word),
                    start_word@,
                    end_word@,
                )
            },
            Err(Error::WordsUnequalLen { start_word: from, end_word: to }) => {
                &&& start_word@.len() != end_word@.len()
                &&& from@ == start_word@
                &&& to@ == end_word@
            },
            Err(Error::NotInDictionary { word }) => {
                &&& start_word@.len() == end_word@.len()
                &&& if dictionary_for(corpus, start_word).contains(start_word@) {
                    !dictionary_for(corpus, start_word).contains(end_word@) && word@ == end_word@
                } else {
                    word@ == start_word@
                }
            },
            Err(Error::NoPathExists { start_word: from, end_word: to }) => {
                &&& start_word@.len() == end_word@.len()
                &&& dictionary_for(corpus, start_word).contains(start_word@)
                &&& dictionary_for(corpus, start_word).contains(end_word@)
                &&& !reachable(dictionary_for(corpus, start_word), start_word@, end_word@)
                &&& from@ == start_word@
                &&& to@ == end_word@
            },
        },
        result is Ok <==> start_word@.len() == end_word@.len() && reachable(
            dictionary_for(corpus, start_word),
            start_word@,
            end_word@,
        ),
        start_word@ == end_word@ && dictionary_for(corpus, start_word).contains(start_word@) ==> (
        result matches Ok(path) && path.deep_view() == seq![start_word@]),
        start_word@.len() != end_word@.len() ==> result matches Err(Error::WordsUnequalLen { .. }),
        start_word@.len() == end_word@.len() && !dictionary_for(corpus, start_word).contains(
            start_word@,
        ) ==> (result matches Err(Error::NotInDictionary { word }) && word@ == start_word@),
        start_word@.len() == end_word@.len() && dictionary_for(corpus, start_word).contains(
            start_word@,
        ) && !dictionary_for(corpus, start_word).contains(end_word@) ==> (result matches Err(
            Error::NotInDictionary { word },
        ) && word@ == end_word@),
{
    match validate(corpus, start_word, end_word) {
        Ok(dictionary) => find_path(dictionary, start_word, end_word),
        Err(error) => Err(error),
    }
}

} // verus!
