//! The order in which a dictionary keeps its words.

use vstd::prelude::*;
use vstd::std_specs::iter::IteratorSpec;

verus! {

/// `a` and `b` hold the same characters at every position below `k`.
pub open spec fn agree_before(a: Seq<char>, b: Seq<char>, k: int) -> bool {
    &&& 0 <= k <= a.len()
    &&& k <= b.len()
    &&& forall|i: int| 0 <= i < k ==> a[i] == b[i]
}

/// Position `k` shows that `a` comes before `b`: the words agree below `k`,
/// and there `a` either ends while `b` goes on, or holds the smaller
/// character.
pub open spec fn precedes_at(a: Seq<char>, b: Seq<char>, k: int) -> bool {
    &&& agree_before(a, b, k)
    &&& k < b.len()
    &&& k < a.len() ==> (a[k] as int) < (b[k] as int)
}

/// `a` comes strictly before `b` in lexicographic order, characters being
/// compared by their code points.
pub open spec fn precedes(a: Seq<char>, b: Seq<char>) -> bool {
    exists|k: int| precedes_at(a, b, k)
}

/// Every word of the sequence comes strictly before all the words after it.
pub open spec fn increasing(words: Seq<Seq<char>>) -> bool {
    forall|i: int, j: int| 0 <= i < j < words.len() ==> precedes(words[i], words[j])
}

/// No word comes before itself.
pub proof fn lemma_precedes_irreflexive(a: Seq<char>)
    ensures
        !precedes(a, a),
{
    assert forall|k: int| !precedes_at(a, a, k) by {}
}

/// The order is transitive.
pub proof fn lemma_precedes_transitive(a: Seq<char>, b: Seq<char>, c: Seq<char>)
    requires
        precedes(a, b),
        precedes(b, c),
    ensures
        precedes(a, c),
{
    let k1 = choose|k: int| precedes_at(a, b, k);
    let k2 = choose|k: int| precedes_at(b, c, k);
    let k = if k1 <= k2 {
        k1
    } else {
        k2
    };
    assert(precedes_at(a, c, k));
}

/// Two different words that agree below `k` are ordered one way or the
/// other.
proof fn lemma_ordered_from(a: Seq<char>, b: Seq<char>, k: int)
    requires
        agree_before(a, b, k),
        a != b,
    ensures
        precedes(a, b) || precedes(b, a),
    decreases a.len() - k,
{
    if k == a.len() {
        if k == b.len() {
            assert(a =~= b);
        } else {
            assert(precedes_at(a, b, k));
        }
    } else if k == b.len() {
        assert(precedes_at(b, a, k));
    } else if a[k] == b[k] {
        lemma_ordered_from(a, b, k + 1);
    } else if (a[k] as int) < (b[k] as int) {
        assert(precedes_at(a, b, k));
    } else {
        assert(precedes_at(b, a, k));
    }
}

/// Of two different words, one comes before the other.
pub proof fn lemma_precedes_total(a: Seq<char>, b: Seq<char>)
    requires
        a != b,
    ensures
        precedes(a, b) || precedes(b, a),
{
    lemma_ordered_from(a, b, 0);
}

/// No two words come before each other.
pub proof fn lemma_precedes_asymmetric(a: Seq<char>, b: Seq<char>)
    requires
        precedes(a, b),
    ensures
        !precedes(b, a),
{
    lemma_precedes_irreflexive(a);
    if precedes(b, a) {
        lemma_precedes_transitive(a, b, a);
    }
}

/// An increasing sequence holds no word twice.
pub proof fn lemma_increasing_no_duplicates(words: Seq<Seq<char>>)
    requires
        increasing(words),
    ensures
        words.no_duplicates(),
{
    assert forall|i: int, j: int| 0 <= i < words.len() && 0 <= j < words.len() && i != j implies words[i]
        != words[j] by {
        lemma_precedes_irreflexive(words[i]);
        if i < j {
            assert(precedes(words[i], words[j]));
        } else {
            assert(precedes(words[j], words[i]));
        }
    }
}

/// How one word stands to another in the order.
#[derive(Clone, Copy, Debug, PartialEq, Eq)]
pub enum Placement {
    /// The first word comes before the second.
    Before,
    /// The two words are the same.
    Same,
    /// The first word comes after the second.
    After,
}

/// Finds how `a` stands to `b` in lexicographic order.
pub fn compare_words(a: &str, b: &str) -> (placement: Placement)
    ensures
        placement == Placement::Before <==> precedes(a@, b@),
        placement == Placement::Same <==> a@ == b@,
        placement == Placement::After <==> precedes(b@, a@),
{
    let mut chars_a = a.chars();
    let mut chars_b = b.chars();
    let ghost mut seen: int = 0;
    let mut placement = Placement::Same;
    loop
        invariant_except_break
            chars_a.remaining() == a@.skip(seen),
            chars_b.remaining() == b@.skip(seen),
            agree_before(a@, b@, seen),
            chars_a.decrease() is Some,
            chars_a.obeys_prophetic_iter_laws(),
            chars_b.obeys_prophetic_iter_laws(),
        ensures
            match placement {
                Placement::Before => precedes_at(a@, b@, seen),
                Placement::Same => agree_before(a@, b@, seen) && seen == a@.len() && seen == b@.len(),
                Placement::After => precedes_at(b@, a@, seen),
            },
        decreases chars_a.decrease()->0,
    {
        match chars_a.next() {
            Some(ca) => {
                match chars_b.next() {
                    Some(cb) => {
                        assert(ca == a@[seen]);
                        assert(cb == b@[seen]);
                        if ca < cb {
                            placement = Placement::Before;
                            break ;
                        } else if cb < ca {
                            placement = Placement::After;
                            break ;
                        }
                        proof {
                            assert(a@.skip(seen).drop_first() =~= a@.skip(seen + 1));
                            assert(b@.skip(seen).drop_first() =~= b@.skip(seen + 1));
                            seen = seen + 1;
                        }
                    },
                    None => {
                        placement = Placement::After;
                        break ;
                    },
                }
            },
            None => {
                match chars_b.next() {
                    Some(cb) => {
                        placement = Placement::Before;
                    },
                    None => {
                        placement = Placement::Same;
                    },
                }
                break ;
            },
        }
    }
    proof {
        lemma_precedes_irreflexive(a@);
        match placement {
            Placement::Before => {
                assert(precedes(a@, b@));
                if precedes(b@, a@) {
                    lemma_precedes_transitive(a@, b@, a@);
                }
            },
            Placement::Same => {
                assert(a@ =~= b@);
            },
            Placement::After => {
                assert(precedes(b@, a@));
                if precedes(a@, b@) {
                    lemma_precedes_transitive(a@, b@, a@);
                }
            },
        }
    }
    placement
}

} // verus!
