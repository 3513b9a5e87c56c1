//! The substitution distance between two words.

use vstd::prelude::*;
use vstd::set_lib::{lemma_int_range, lemma_len_subset, set_int_range};
use vstd::std_specs::iter::IteratorSpec;

verus! {

/// The positions below `bound`, present in both words, at which the two words
/// hold different characters.
pub open spec fn differing_before(a: Seq<char>, b: Seq<char>, bound: int) -> Set<int> {
    Set::new(|i: int| 0 <= i < bound && i < a.len() && i < b.len() && a[i] != b[i])
}

/// The positions, present in both words, at which the two words hold
/// different characters.
pub open spec fn differing_positions(a: Seq<char>, b: Seq<char>) -> Set<int> {
    Set::new(|i: int| 0 <= i < a.len() && i < b.len() && a[i] != b[i])
}

/// The number of positions at which two words differ. Positions that only the
/// longer of two words has are not counted.
pub open spec fn hamming(a: Seq<char>, b: Seq<char>) -> nat {
    differing_positions(a, b).len()
}

/// Two words are adjacent when they have the same length and differ in
/// exactly one position.
pub open spec fn adjacent(a: Seq<char>, b: Seq<char>) -> bool {
    a.len() == b.len() && hamming(a, b) == 1
}

/// The differing positions below a bound form a finite set with at most
/// `bound` members.
pub proof fn lemma_differing_before_bounded(a: Seq<char>, b: Seq<char>, bound: int)
    requires
        0 <= bound,
    ensures
        differing_before(a, b, bound).finite(),
        differing_before(a, b, bound).len() <= bound,
{
    lemma_int_range(0, bound);
    lemma_len_subset(differing_before(a, b, bound), set_int_range(0, bound));
}

/// Looking one position further adds that position exactly when the two
/// characters there differ.
pub proof fn lemma_differing_before_step(a: Seq<char>, b: Seq<char>, bound: int)
    requires
        0 <= bound < a.len(),
        bound < b.len(),
    ensures
        differing_before(a, b, bound + 1).len() == differing_before(a, b, bound).len() + (if a[bound]
            != b[bound] {
            1nat
        } else {
            0nat
        }),
{
    lemma_differing_before_bounded(a, b, bound);
    if a[bound] != b[bound] {
        assert(differing_before(a, b, bound + 1) =~= differing_before(a, b, bound).insert(bound));
    } else {
        assert(differing_before(a, b, bound + 1) =~= differing_before(a, b, bound));
    }
}

/// Once the bound has reached the end of either word, every differing
/// position has been seen.
pub proof fn lemma_differing_before_all(a: Seq<char>, b: Seq<char>, bound: int)
    requires
        bound >= a.len() || bound >= b.len(),
    ensures
        differing_before(a, b, bound) == differing_positions(a, b),
{
    assert(differing_before(a, b, bound) =~= differing_positions(a, b));
}

/// Counts the positions at which `word1` and `word2` hold different
/// characters, walking both words in step and stopping at the end of the
/// shorter one.
pub fn hamming_distance(word1: &str, word2: &str) -> (distance: usize)
    ensures
        distance == hamming(word1@, word2@),
{
    let len1 = word1.unicode_len();
    let mut chars1 = word1.chars();
    let mut chars2 = word2.chars();
    let mut distance: usize = 0;
    let ghost mut seen: int = 0;
    proof {
        assert(differing_before(word1@, word2@, 0) =~= Set::<int>::empty());
    }
    loop
        invariant_except_break
            chars1.remaining() == word1@.skip(seen),
            chars2.remaining() == word2@.skip(seen),
        invariant
            0 <= seen <= word1@.len(),
            seen <= word2@.len(),
            len1 == word1@.len(),
            distance <= seen,
            distance == differing_before(word1@, word2@, seen).len(),
            chars1.decrease() is Some,
            chars1.obeys_prophetic_iter_laws(),
            chars2.obeys_prophetic_iter_laws(),
        ensures
            seen == word1@.len() || seen == word2@.len(),
        decreases chars1.decrease()->0,
    {
        match chars1.next() {
            Some(c1) => {
                match chars2.next() {
                    Some(c2) => {
                        proof {
                            assert(c1 == word1@[seen]);
                            assert(c2 == word2@[seen]);
                            lemma_differing_before_step(word1@, word2@, seen);
                        }
                        if c1 != c2 {
                            distance = distance + 1;
                        }
                        proof {
                            assert(word1@.skip(seen).drop_first() =~= word1@.skip(seen + 1));
                            assert(word2@.skip(seen).drop_first() =~= word2@.skip(seen + 1));
                            seen = seen + 1;
                        }
                    },
                    None => {
                        break ;
                    },
                }
            },
            None => {
                break ;
            },
        }
    }
    proof {
        lemma_differing_before_all(word1@, word2@, seen);
    }
    distance
}

} // verus!
