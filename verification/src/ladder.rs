//! Word ladders over a set of words.

use crate::distance::adjacent;
use crate::order::{lemma_precedes_irreflexive, lemma_precedes_total, precedes};
use vstd::prelude::*;

verus! {

/// A ladder is a sequence of at least one word of the dictionary in which
/// every word is adjacent to the one before it.
pub open spec fn is_ladder(path: Seq<Seq<char>>, dictionary: Set<Seq<char>>) -> bool {
    &&& path.len() > 0
    &&& forall|i: int| 0 <= i < path.len() ==> dictionary.contains(#[trigger] path[i])
    &&& forall|i: int, j: int|
        0 <= i && j == i + 1 && j < path.len() ==> adjacent(#[trigger] path[i], #[trigger] path[j])
}

/// The ladder `path` leads from `start` to `end`.
pub open spec fn connects(
    path: Seq<Seq<char>>,
    dictionary: Set<Seq<char>>,
    start: Seq<char>,
    end: Seq<char>,
) -> bool {
    &&& is_ladder(path, dictionary)
    &&& path.first() == start
    &&& path.last() == end
}

/// Some ladder leads from `start` to `end`.
pub open spec fn reachable(dictionary: Set<Seq<char>>, start: Seq<char>, end: Seq<char>) -> bool {
    exists|path: Seq<Seq<char>>| connects(path, dictionary, start, end)
}

/// The ladder `path` leads from `start` to `end`, and no ladder that does so
/// has fewer words.
pub open spec fn is_shortest(
    path: Seq<Seq<char>>,
    dictionary: Set<Seq<char>>,
    start: Seq<char>,
    end: Seq<char>,
) -> bool {
    &&& connects(path, dictionary, start, end)
    &&& forall|other: Seq<Seq<char>>|
        connects(other, dictionary, start, end) ==> path.len() <= other.len()
}

/// Position `k` shows that ladder `a` comes before ladder `b`: the two hold
/// the same words below `k`, and there `a` holds the earlier word.
pub open spec fn ladder_precedes_at(a: Seq<Seq<char>>, b: Seq<Seq<char>>, k: int) -> bool {
    &&& 0 <= k < a.len()
    &&& k < b.len()
    &&& forall|i: int| 0 <= i < k ==> a[i] == b[i]
    &&& precedes(a[k], b[k])
}

/// Ladder `a` comes before ladder `b` when, at the first place where they
/// hold different words, `a` holds the earlier one.
pub open spec fn ladder_precedes(a: Seq<Seq<char>>, b: Seq<Seq<char>>) -> bool {
    exists|k: int| ladder_precedes_at(a, b, k)
}

/// No ladder with as many words that leads from `start` to `end` comes
/// before `path`.
pub open spec fn is_first(
    path: Seq<Seq<char>>,
    dictionary: Set<Seq<char>>,
    start: Seq<char>,
    end: Seq<char>,
) -> bool {
    forall|other: Seq<Seq<char>>|
        #[trigger] connects(other, dictionary, start, end) && other.len() == path.len()
            ==> !ladder_precedes(other, path)
}

/// Two different ladders of one length that hold the same words below `k`
/// are ordered one way or the other.
proof fn lemma_ladders_ordered_from(a: Seq<Seq<char>>, b: Seq<Seq<char>>, k: int)
    requires
        a.len() == b.len(),
        0 <= k <= a.len(),
        forall|i: int| 0 <= i < k ==> a[i] == b[i],
        a != b,
    ensures
        ladder_precedes(a, b) || ladder_precedes(b, a),
    decreases a.len() - k,
{
    if k == a.len() {
        assert(a =~= b);
    } else if a[k] == b[k] {
        lemma_ladders_ordered_from(a, b, k + 1);
    } else {
        lemma_precedes_total(a[k], b[k]);
        if precedes(a[k], b[k]) {
            assert(ladder_precedes_at(a, b, k));
        } else {
            assert(ladder_precedes_at(b, a, k));
        }
    }
}

/// Among the shortest ladders from `start` to `end` exactly one is the
/// first: two ladders that are both shortest and first are the same.
pub proof fn lemma_first_shortest_unique(
    a: Seq<Seq<char>>,
    b: Seq<Seq<char>>,
    dictionary: Set<Seq<char>>,
    start: Seq<char>,
    end: Seq<char>,
)
    requires
        is_shortest(a, dictionary, start, end),
        is_first(a, dictionary, start, end),
        is_shortest(b, dictionary, start, end),
        is_first(b, dictionary, start, end),
    ensures
        a == b,
{
    if a != b {
        lemma_ladders_ordered_from(a, b, 0);
    }
}

/// No ladder comes before itself.
pub proof fn lemma_ladder_precedes_irreflexive(a: Seq<Seq<char>>)
    ensures
        !ladder_precedes(a, a),
{
    assert forall|k: int| !ladder_precedes_at(a, a, k) by {
        if 0 <= k < a.len() {
            lemma_precedes_irreflexive(a[k]);
        }
    }
}

/// A single word of the dictionary is a ladder from itself to itself.
pub proof fn lemma_single_word(dictionary: Set<Seq<char>>, word: Seq<char>)
    requires
        dictionary.contains(word),
    ensures
        is_shortest(seq![word], dictionary, word, word),
        is_first(seq![word], dictionary, word, word),
{
    let path = seq![word];
    assert forall|other: Seq<Seq<char>>|
        #[trigger] connects(other, dictionary, word, word) && other.len()
            == path.len() implies !ladder_precedes(other, path) by {
        assert(other =~= path);
        lemma_ladder_precedes_irreflexive(path);
    }
}

/// A ladder followed by a word of the dictionary adjacent to its last word
/// is a ladder again.
pub proof fn lemma_extend(path: Seq<Seq<char>>, dictionary: Set<Seq<char>>, word: Seq<char>)
    requires
        is_ladder(path, dictionary),
        dictionary.contains(word),
        adjacent(path.last(), word),
    ensures
        is_ladder(path.push(word), dictionary),
        path.push(word).first() == path.first(),
        path.push(word).last() == word,
{
    let longer = path.push(word);
    assert forall|i: int, j: int| 0 <= i && j == i + 1 && j < longer.len() implies adjacent(
        #[trigger] longer[i],
        #[trigger] longer[j],
    ) by {
        if j < path.len() {
            assert(adjacent(path[i], path[j]));
        }
    }
}

/// A ladder of more than one word, without its last word, is a ladder that
/// ends in a word adjacent to that last word.
pub proof fn lemma_shorten(path: Seq<Seq<char>>, dictionary: Set<Seq<char>>)
    requires
        is_ladder(path, dictionary),
        path.len() > 1,
    ensures
        is_ladder(path.drop_last(), dictionary),
        path.drop_last().first() == path.first(),
        adjacent(path.drop_last().last(), path.last()),
{
    let shorter = path.drop_last();
    assert forall|i: int| 0 <= i < shorter.len() implies dictionary.contains(
        #[trigger] shorter[i],
    ) by {
        assert(shorter[i] == path[i]);
    }
    assert forall|i: int, j: int| 0 <= i && j == i + 1 && j < shorter.len() implies adjacent(
        #[trigger] shorter[i],
        #[trigger] shorter[j],
    ) by {
        assert(adjacent(path[i], path[j]));
    }
    assert(adjacent(path[path.len() - 2], path[path.len() - 1]));
}

} // verus!
