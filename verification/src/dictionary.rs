//! The words of one length, kept in order without repetition.

use crate::order::{
    compare_words, increasing, lemma_increasing_no_duplicates, lemma_precedes_irreflexive,
    lemma_precedes_transitive, precedes, Placement,
};
use vstd::prelude::*;
use vstd::seq_lib::seq_to_set_is_finite;

verus! {

/// The words of `tokens` that are `length` characters long, each taken once.
pub open spec fn words_of_length(tokens: Seq<Seq<char>>, length: nat) -> Set<Seq<char>> {
    Set::new(|word: Seq<char>| word.len() == length && tokens.contains(word))
}

/// One more token adds its word exactly when the word has the wanted length.
pub proof fn lemma_words_of_length_push(tokens: Seq<Seq<char>>, token: Seq<char>, length: nat)
    ensures
        words_of_length(tokens.push(token), length) == if token.len() == length {
            words_of_length(tokens, length).insert(token)
        } else {
            words_of_length(tokens, length)
        },
{
    let longer = tokens.push(token);
    let before = words_of_length(tokens, length);
    let after = words_of_length(longer, length);
    assert(longer[tokens.len() as int] == token);
    assert forall|word: Seq<char>| tokens.contains(word) implies longer.contains(word) by {
        let i = choose|i: int| 0 <= i < tokens.len() && tokens[i] == word;
        assert(longer[i] == word);
    }
    assert forall|word: Seq<char>| longer.contains(word) implies tokens.contains(word) || word
        == token by {
        let i = choose|i: int| 0 <= i < longer.len() && longer[i] == word;
        if i < tokens.len() {
            assert(tokens[i] == word);
        }
    }
    if token.len() == length {
        assert(after =~= before.insert(token));
    } else {
        assert(after =~= before);
    }
}

/// A set of words of one length that can be searched, walked in order and
/// shrunk. The words are borrowed from the corpus they were taken from.
pub struct Dictionary<'a> {
    words: Vec<&'a str>,
    word_len: usize,
}

impl<'a> View for Dictionary<'a> {
    type V = Set<Seq<char>>;

    /// The words of the dictionary, as a set.
    open spec fn view(&self) -> Set<Seq<char>> {
        self.entries().to_set()
    }
}

impl<'a> Dictionary<'a> {
    /// The words of the dictionary in the order in which it is walked.
    pub closed spec fn entries(&self) -> Seq<Seq<char>> {
        self.words.deep_view()
    }

    /// The length that every word of the dictionary has.
    pub closed spec fn word_length(&self) -> nat {
        self.word_len as nat
    }

    /// The words stand in increasing order, so none occurs twice, and all
    /// have the dictionary's length.
    pub open spec fn wf(&self) -> bool {
        &&& increasing(self.entries())
        &&& forall|i: int|
            0 <= i < self.entries().len() ==> (#[trigger] self.entries()[i]).len()
                == self.word_length()
    }

    /// A well-formed dictionary is a finite set with as many members as it
    /// has entries, and each member has the dictionary's length.
    pub proof fn lemma_view(&self)
        requires
            self.wf(),
        ensures
            self@.finite(),
            self@.len() == self.entries().len(),
            self.entries().no_duplicates(),
            forall|word: Seq<char>| self@.contains(word) ==> word.len() == self.word_length(),
            forall|i: int| 0 <= i < self.entries().len() ==> self@.contains(#[trigger] self.entries()[i]),
    {
        lemma_increasing_no_duplicates(self.entries());
        seq_to_set_is_finite(self.entries());
        self.entries().unique_seq_to_set();
    }

    /// A dictionary without words.
    fn empty(word_len: usize) -> (dictionary: Self)
        ensures
            dictionary.wf(),
            dictionary.word_length() == word_len,
            dictionary.entries().len() == 0,
    {
        Dictionary { words: Vec::new(), word_len }
    }

    /// The number of words in the dictionary.
    pub fn len(&self) -> (count: usize)
        ensures
            count == self.entries().len(),
    {
        self.words.len()
    }

    /// The word at `index` in the dictionary's order.
    pub fn word(&self, index: usize) -> (word: &'a str)
        requires
            index < self.entries().len(),
        ensures
            word@ == self.entries()[index as int],
    {
        self.words[index]
    }

    /// Searches for `word`. Returns the number of entries that come before it
    /// and whether the entry at that index is the word itself.
    fn locate(&self, word: &str) -> (found: (usize, bool))
        requires
            self.wf(),
        ensures
            found.0 <= self.entries().len(),
            forall|i: int| 0 <= i < found.0 ==> precedes(#[trigger] self.entries()[i], word@),
            found.1 ==> found.0 < self.entries().len() && self.entries()[found.0 as int] == word@,
            !found.1 ==> forall|i: int|
                found.0 <= i < self.entries().len() ==> precedes(word@, #[trigger] self.entries()[i]),
            found.1 == self@.contains(word@),
    {
        let ghost entries = self.entries();
        let mut low: usize = 0;
        let mut high: usize = self.words.len();
        while low < high
            invariant
                self.wf(),
                entries == self.entries(),
                entries.len() == self.words.len(),
                low <= high <= entries.len(),
                forall|i: int| 0 <= i < low ==> precedes(#[trigger] entries[i], word@),
                forall|i: int| high <= i < entries.len() ==> precedes(word@, #[trigger] entries[i]),
            decreases high - low,
        {
            let middle = low + (high - low) / 2;
            match compare_words(self.words[middle], word) {
                Placement::Before => {
                    proof {
                        assert forall|i: int| 0 <= i < middle + 1 implies precedes(
                            #[trigger] entries[i],
                            word@,
                        ) by {
                            if i < middle {
                                lemma_precedes_transitive(entries[i], entries[middle as int], word@);
                            }
                        }
                    }
                    low = middle + 1;
                },
                Placement::Same => {
                    proof {
                        assert(entries[middle as int] == word@);
                        assert(self@.contains(word@));
                    }
                    return (middle, true);
                },
                Placement::After => {
                    proof {
                        assert forall|i: int| middle <= i < entries.len() implies precedes(
                            word@,
                            #[trigger] entries[i],
                        ) by {
                            if middle < i {
                                lemma_precedes_transitive(word@, entries[middle as int], entries[i]);
                            }
                        }
                    }
                    high = middle;
                },
            }
        }
        proof {
            lemma_precedes_irreflexive(word@);
            if self@.contains(word@) {
                let i = choose|i: int| 0 <= i < entries.len() && entries[i] == word@;
                if i < low {
                    assert(precedes(entries[i], word@));
                } else {
                    assert(precedes(word@, entries[i]));
                }
            }
        }
        (low, false)
    }

    /// Whether `word` is in the dictionary.
    pub fn contains(&self, word: &str) -> (present: bool)
        requires
            self.wf(),
        ensures
            present == self@.contains(word@),
    {
        self.locate(word).1
    }

    /// Takes `word` out of the dictionary, if it is there, and says whether
    /// it was. The other words keep their order.
    pub fn remove(&mut self, word: &str) -> (present: bool)
        requires
            old(self).wf(),
        ensures
            final(self).wf(),
            final(self).word_length() == old(self).word_length(),
            present == old(self)@.contains(word@),
            final(self)@ == old(self)@.remove(word@),
            final(self).entries() == old(self).entries().remove_value(word@),
    {
        let (index, present) = self.locate(word);
        let ghost before = self.entries();
        proof {
            self.lemma_view();
        }
        if present {
            self.words.remove(index);
            proof {
                let after = self.entries();
                assert(after =~= before.remove(index as int));
                assert(before.index_of_first(word@) == Some(index as int)) by {
                    before.index_of_first_ensures(word@);
                }
                assert(after.to_set() =~= before.to_set().remove(word@)) by {
                    assert forall|other: Seq<char>| before.to_set().remove(other).contains(other)
                        == false by {}
                    assert forall|other: Seq<char>|
                        after.to_set().contains(other) <==> before.to_set().remove(word@).contains(
                            other,
                        ) by {
                        if after.to_set().contains(other) {
                            let i = choose|i: int| 0 <= i < after.len() && after[i] == other;
                            if i < index {
                                assert(before[i] == other);
                            } else {
                                assert(before[i + 1] == other);
                            }
                        }
                        if before.to_set().remove(word@).contains(other) {
                            let i = choose|i: int| 0 <= i < before.len() && before[i] == other;
                            if i < index {
                                assert(after[i] == other);
                            } else {
                                assert(after[i - 1] == other);
                            }
                        }
                    }
                }
            }
        } else {
            proof {
                assert(before.index_of_first(word@) is None) by {
                    before.index_of_first_ensures(word@);
                }
                assert(self@ =~= self@.remove(word@));
            }
        }
        present
    }

    /// Puts `word` into the dictionary at its place in the order, unless it
    /// is there already.
    fn insert(&mut self, word: &'a str)
        requires
            old(self).wf(),
            word@.len() == old(self).word_length(),
        ensures
            final(self).wf(),
            final(self).word_length() == old(self).word_length(),
            final(self)@ == old(self)@.insert(word@),
    {
        let (index, present) = self.locate(word);
        let ghost before = self.entries();
        if !present {
            self.words.insert(index, word);
            proof {
                let after = self.entries();
                assert(after =~= before.insert(index as int, word@));
                assert forall|i: int, j: int| 0 <= i < j < after.len() implies precedes(
                    after[i],
                    after[j],
                ) by {
                    if i < index && j > index {
                        assert(precedes(before[i], before[j - 1]));
                    }
                }
                assert forall|other: Seq<char>|
                    after.to_set().contains(other) <==> before.to_set().insert(word@).contains(
                        other,
                    ) by {
                    if after.to_set().contains(other) {
                        let i = choose|i: int| 0 <= i < after.len() && after[i] == other;
                        if i < index {
                            assert(before[i] == other);
                        } else if i > index {
                            assert(before[i - 1] == other);
                        }
                    }
                    if before.to_set().contains(other) {
                        let i = choose|i: int| 0 <= i < before.len() && before[i] == other;
                        if i < index {
                            assert(after[i] == other);
                        } else {
                            assert(after[i + 1] == other);
                        }
                    }
                    if other == word@ {
                        assert(after[index as int] == other);
                    }
                }
                assert(after.to_set() =~= before.to_set().insert(word@));
            }
        } else {
            proof {
                assert(self@ =~= self@.insert(word@));
            }
        }
    }
}

/// Collects the words of `corpus` that are `word_len` characters long, each
/// once, into a dictionary.
pub fn load_dictionary<'a>(corpus: &[&'a str], word_len: usize) -> (dictionary: Dictionary<'a>)
    ensures
        dictionary.wf(),
        dictionary.word_length() == word_len,
        dictionary@ == words_of_length(corpus.deep_view(), word_len as nat),
{
    let ghost tokens = corpus.deep_view();
    let mut dictionary = Dictionary::empty(word_len);
    let mut index: usize = 0;
    proof {
        assert(dictionary@ =~= words_of_length(tokens.take(0), word_len as nat));
    }
    while index < corpus.len()
        invariant
            tokens == corpus.deep_view(),
            index <= corpus.len(),
            dictionary.wf(),
            dictionary.word_length() == word_len,
            dictionary@ == words_of_length(tokens.take(index as int), word_len as nat),
        decreases corpus.len() - index,
    {
        let token = corpus[index];
        proof {
            assert(tokens.take(index + 1) =~= tokens.take(index as int).push(token@));
            lemma_words_of_length_push(tokens.take(index as int), token@, word_len as nat);
        }
        if token.unicode_len() == word_len {
            dictionary.insert(token);
        }
        index += 1;
    }
    proof {
        assert(tokens.take(index as int) =~= tokens);
    }
    dictionary
}

} // verus!
