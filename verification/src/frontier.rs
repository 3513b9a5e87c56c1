//! What a level-order search knows while it runs, and why it is right.
//!
//! A search is described by the dictionary it started with, the words it has
//! not visited yet, and its queue. Each entry of the queue is the ladder
//! that leads from the start word to the word that the entry stands for.

use crate::distance::adjacent;
use crate::ladder::{
    connects, is_ladder, ladder_precedes, ladder_precedes_at, lemma_extend, lemma_shorten,
    reachable,
};
use crate::order::{lemma_precedes_asymmetric, lemma_precedes_irreflexive, precedes};
use vstd::prelude::*;

verus! {

/// The queue holds an entry for `word`.
pub open spec fn queued(queue: Seq<Seq<Seq<char>>>, word: Seq<char>) -> bool {
    exists|j: int| 0 <= j < queue.len() && (#[trigger] queue[j]).last() == word
}

/// The queue holds an entry for `word` whose ladder has at most `limit`
/// words.
pub open spec fn queued_within(queue: Seq<Seq<Seq<char>>>, word: Seq<char>, limit: int) -> bool {
    exists|j: int|
        0 <= j < queue.len() && (#[trigger] queue[j]).last() == word && queue[j].len() <= limit
}

/// The queue holds an entry for `word` at a place before `place`.
pub open spec fn queued_before(queue: Seq<Seq<Seq<char>>>, word: Seq<char>, place: int) -> bool {
    exists|i: int| 0 <= i < place && i < queue.len() && (#[trigger] queue[i]).last() == word
}

/// The search meets `path` before `entry`: it has fewer words, or as many
/// and comes before it.
pub open spec fn met_before(path: Seq<Seq<char>>, entry: Seq<Seq<char>>) -> bool {
    path.len() < entry.len() || (path.len() == entry.len() && ladder_precedes(path, entry))
}

/// Every word that a ladder met before some entry reaches is visited, or
/// waits in the queue before that entry.
pub open spec fn earlier_ladders_seen(
    all: Set<Seq<char>>,
    unvisited: Set<Seq<char>>,
    queue: Seq<Seq<Seq<char>>>,
    start: Seq<char>,
) -> bool {
    forall|path: Seq<Seq<char>>, j: int|
        0 <= j < queue.len() && #[trigger] is_ladder(path, all) && path.first() == start
            && met_before(path, #[trigger] queue[j]) ==> !unvisited.contains(path.last())
            || queued_before(queue, path.last(), j)
}

/// Every entry is a ladder from the start word, and none stands for the end
/// word.
pub open spec fn entries_valid(
    all: Set<Seq<char>>,
    queue: Seq<Seq<Seq<char>>>,
    start: Seq<char>,
    end: Seq<char>,
) -> bool {
    forall|j: int|
        0 <= j < queue.len() ==> {
            &&& is_ladder(#[trigger] queue[j], all)
            &&& queue[j].first() == start
            &&& queue[j].last() != end
        }
}

/// Ladders do not get shorter along the queue, and the longest is at most
/// one word longer than the first.
pub open spec fn levels_ordered(queue: Seq<Seq<Seq<char>>>) -> bool {
    forall|i: int, j: int|
        0 <= i <= j < queue.len() ==> {
            &&& (#[trigger] queue[i]).len() <= (#[trigger] queue[j]).len()
            &&& queue[j].len() <= queue[0].len() + 1
        }
}

/// Every word adjacent to a visited word is visited itself or waits in the
/// queue.
pub open spec fn closed_under_steps(
    all: Set<Seq<char>>,
    unvisited: Set<Seq<char>>,
    queue: Seq<Seq<Seq<char>>>,
) -> bool {
    forall|u: Seq<char>, v: Seq<char>|
        all.contains(u) && !unvisited.contains(u) && all.contains(v) && #[trigger] adjacent(u, v)
            ==> !unvisited.contains(v) || queued(queue, v)
}

/// Every word that a ladder no longer than the first entry's reaches is
/// visited, or waits in the queue with a ladder that is no longer.
pub open spec fn levels_complete(
    all: Set<Seq<char>>,
    unvisited: Set<Seq<char>>,
    queue: Seq<Seq<Seq<char>>>,
    start: Seq<char>,
) -> bool {
    forall|path: Seq<Seq<char>>|
        queue.len() > 0 && #[trigger] is_ladder(path, all) && path.first() == start && path.len()
            <= queue[0].len() ==> !unvisited.contains(path.last()) || queued_within(
            queue,
            path.last(),
            path.len() as int,
        )
}

/// What holds of a search between two expansions.
pub open spec fn search_invariant(
    all: Set<Seq<char>>,
    unvisited: Set<Seq<char>>,
    queue: Seq<Seq<Seq<char>>>,
    start: Seq<char>,
    end: Seq<char>,
) -> bool {
    &&& all.finite()
    &&& unvisited.subset_of(all)
    &&& all.contains(start)
    &&& unvisited.contains(end)
    &&& start != end
    &&& !unvisited.contains(start) || queued(queue, start)
    &&& entries_valid(all, queue, start, end)
    &&& levels_ordered(queue)
    &&& closed_under_steps(all, unvisited, queue)
    &&& levels_complete(all, unvisited, queue, start)
    &&& earlier_ladders_seen(all, unvisited, queue, start)
}

/// A search that has visited nothing and queued the start word alone is in
/// order.
pub proof fn lemma_search_begins(all: Set<Seq<char>>, start: Seq<char>, end: Seq<char>)
    requires
        all.finite(),
        all.contains(start),
        all.contains(end),
        start != end,
    ensures
        search_invariant(all, all, seq![seq![start]], start, end),
{
    let queue = seq![seq![start]];
    assert(queue[0].last() == start);
    assert(queued(queue, start));
    assert(is_ladder(queue[0], all));
    assert forall|path: Seq<Seq<char>>|
        queue.len() > 0 && #[trigger] is_ladder(path, all) && path.first() == start && path.len()
            <= queue[0].len() implies !all.contains(path.last()) || queued_within(
        queue,
        path.last(),
        path.len() as int,
    ) by {
        assert(path.last() == start);
        assert(queue[0].len() <= path.len());
    }
    assert forall|path: Seq<Seq<char>>, j: int|
        0 <= j < queue.len() && #[trigger] is_ladder(path, all) && path.first() == start
            && met_before(path, #[trigger] queue[j]) implies !all.contains(path.last())
        || queued_before(queue, path.last(), j) by {
        let k = choose|k: int| ladder_precedes_at(path, queue[0], k);
        lemma_precedes_irreflexive(start);
    }
}

/// While the search is in order, every ladder from the start word to the end
/// word has more words than the ladder of the first entry in the queue.
pub proof fn lemma_no_shorter_ladder(
    all: Set<Seq<char>>,
    unvisited: Set<Seq<char>>,
    queue: Seq<Seq<Seq<char>>>,
    start: Seq<char>,
    end: Seq<char>,
)
    requires
        search_invariant(all, unvisited, queue, start, end),
        queue.len() > 0,
    ensures
        forall|path: Seq<Seq<char>>| #[trigger]
            connects(path, all, start, end) ==> path.len() > queue[0].len(),
{
    assert forall|path: Seq<Seq<char>>| #[trigger]
        connects(path, all, start, end) implies path.len() > queue[0].len() by {
        if path.len() <= queue[0].len() {
            lemma_shorten(path, all);
            let shorter = path.drop_last();
            let last_but_one = shorter.last();
            assert(is_ladder(shorter, all));
            if queued_within(queue, last_but_one, shorter.len() as int) {
                let j = choose|j: int|
                    0 <= j < queue.len() && (#[trigger] queue[j]).last() == last_but_one
                        && queue[j].len() <= shorter.len();
                assert(queue[0].len() <= queue[j].len());
            }
            assert(!unvisited.contains(last_but_one));
            assert(all.contains(shorter[shorter.len() - 1]));
            assert(all.contains(path[path.len() - 1]));
            assert(adjacent(last_but_one, end));
            if queued(queue, end) {
                let j = choose|j: int| 0 <= j < queue.len() && (#[trigger] queue[j]).last() == end;
                assert(is_ladder(queue[j], all));
            }
        }
    }
}

/// While the search is in order, no ladder from the start word to the end
/// word that has one word more than the first entry's ladder comes before
/// that ladder followed by the end word.
pub proof fn lemma_none_earlier(
    all: Set<Seq<char>>,
    unvisited: Set<Seq<char>>,
    queue: Seq<Seq<Seq<char>>>,
    start: Seq<char>,
    end: Seq<char>,
)
    requires
        search_invariant(all, unvisited, queue, start, end),
        queue.len() > 0,
    ensures
        forall|path: Seq<Seq<char>>|
            #[trigger] connects(path, all, start, end) && path.len() == queue[0].len() + 1
                ==> !ladder_precedes(path, queue[0].push(end)),
{
    let parent = queue[0];
    let found = parent.push(end);
    assert(is_ladder(parent, all));
    assert forall|path: Seq<Seq<char>>|
        #[trigger] connects(path, all, start, end) && path.len() == parent.len()
            + 1 implies !ladder_precedes(path, found) by {
        if ladder_precedes(path, found) {
            let k = choose|k: int| ladder_precedes_at(path, found, k);
            if k == parent.len() {
                lemma_precedes_irreflexive(end);
            } else {
                lemma_shorten(path, all);
                let shorter = path.drop_last();
                let last_but_one = shorter.last();
                assert(is_ladder(shorter, all));
                assert(ladder_precedes_at(shorter, parent, k)) by {
                    assert(found[k] == parent[k]);
                    assert forall|i: int| 0 <= i < k implies shorter[i] == parent[i] by {
                        assert(path[i] == found[i]);
                    }
                }
                assert(met_before(shorter, queue[0]));
                assert(!queued_before(queue, last_but_one, 0));
                assert(!unvisited.contains(last_but_one));
                assert(all.contains(shorter[shorter.len() - 1]));
                assert(all.contains(path[path.len() - 1]));
                assert(adjacent(last_but_one, end));
                if queued(queue, end) {
                    let j = choose|j: int|
                        0 <= j < queue.len() && (#[trigger] queue[j]).last() == end;
                    assert(is_ladder(queue[j], all));
                }
            }
        }
    }
}

/// Once the queue is empty, no ladder leads from the start word to an
/// unvisited word.
pub proof fn lemma_ladder_stays_visited(
    all: Set<Seq<char>>,
    unvisited: Set<Seq<char>>,
    start: Seq<char>,
    path: Seq<Seq<char>>,
)
    requires
        closed_under_steps(all, unvisited, Seq::empty()),
        all.contains(start),
        !unvisited.contains(start),
        is_ladder(path, all),
        path.first() == start,
    ensures
        !unvisited.contains(path.last()),
    decreases path.len(),
{
    if path.len() > 1 {
        lemma_shorten(path, all);
        let shorter = path.drop_last();
        lemma_ladder_stays_visited(all, unvisited, start, shorter);
        assert(all.contains(shorter[shorter.len() - 1]));
        assert(all.contains(path[path.len() - 1]));
        assert(adjacent(shorter.last(), path.last()));
        assert(!queued(Seq::<Seq<Seq<char>>>::empty(), path.last()));
    }
}

/// A search whose queue has run empty shows that no ladder leads from the
/// start word to the end word.
pub proof fn lemma_search_exhausted(
    all: Set<Seq<char>>,
    unvisited: Set<Seq<char>>,
    queue: Seq<Seq<Seq<char>>>,
    start: Seq<char>,
    end: Seq<char>,
)
    requires
        search_invariant(all, unvisited, queue, start, end),
        queue.len() == 0,
    ensures
        !reachable(all, start, end),
{
    assert(queue =~= Seq::empty());
    if reachable(all, start, end) {
        let path = choose|path: Seq<Seq<char>>| connects(path, all, start, end);
        lemma_ladder_stays_visited(all, unvisited, start, path);
    }
}

/// What an expansion adds to the queue: for each unvisited word adjacent to
/// the expanded word one entry, whose ladder is the expanded entry's ladder
/// followed by that word. The entries come in the order of their words.
pub open spec fn children_of(
    parent: Seq<Seq<char>>,
    unvisited: Set<Seq<char>>,
    children: Seq<Seq<Seq<char>>>,
    end: Seq<char>,
) -> bool {
    &&& forall|k: int|
        0 <= k < children.len() ==> {
            &&& #[trigger] children[k] == parent.push(children[k].last())
            &&& unvisited.contains(children[k].last())
            &&& adjacent(parent.last(), children[k].last())
            &&& children[k].last() != end
        }
    &&& forall|word: Seq<char>|
        unvisited.contains(word) && #[trigger] adjacent(parent.last(), word) ==> queued(
            children,
            word,
        )
    &&& forall|k: int, m: int|
        0 <= k < m < children.len() ==> precedes(
            (#[trigger] children[k]).last(),
            (#[trigger] children[m]).last(),
        )
}

/// After an expansion, the word that a ladder met before the entry at place
/// `j` reaches is visited, or waits in the queue before that place.
proof fn lemma_earlier_ladder_seen(
    all: Set<Seq<char>>,
    unvisited: Set<Seq<char>>,
    queue: Seq<Seq<Seq<char>>>,
    start: Seq<char>,
    end: Seq<char>,
    children: Seq<Seq<Seq<char>>>,
    path: Seq<Seq<char>>,
    j: int,
)
    requires
        search_invariant(all, unvisited, queue, start, end),
        queue.len() > 0,
        children_of(queue[0], unvisited.remove(queue[0].last()), children, end),
        0 <= j < (queue.drop_first() + children).len(),
        is_ladder(path, all),
        path.first() == start,
        met_before(path, (queue.drop_first() + children)[j]),
        unvisited.remove(queue[0].last()).contains(path.last()),
    ensures
        queued_before(queue.drop_first() + children, path.last(), j),
{
    let parent = queue[0];
    let word = parent.last();
    let rest = queue.drop_first();
    let left = unvisited.remove(word);
    let next = rest + children;
    let depth = parent.len() as int;
    let target = path.last();

    if j < rest.len() {
        assert(next[j] == queue[j + 1]);
        assert(met_before(path, queue[j + 1]));
        assert(queued_before(queue, target, j + 1));
        let i = choose|i: int|
            0 <= i < j + 1 && i < queue.len() && (#[trigger] queue[i]).last() == target;
        assert(next[i - 1] == queue[i]);
    } else if path.len() <= depth {
        assert(queued_within(queue, target, path.len() as int));
        let i = choose|i: int|
            0 <= i < queue.len() && (#[trigger] queue[i]).last() == target && queue[i].len()
                <= path.len();
        assert(next[i - 1] == queue[i]);
    } else {
        let place = j - rest.len();
        let child = children[place];
        assert(next[j] == child);
        assert(child == parent.push(child.last()));
        let k = choose|k: int| ladder_precedes_at(path, child, k);
        lemma_shorten(path, all);
        let shorter = path.drop_last();
        let last_but_one = shorter.last();
        assert(all.contains(shorter[shorter.len() - 1]));
        assert(all.contains(path[path.len() - 1]));
        assert forall|i: int| 0 <= i < k implies shorter[i] == parent[i] by {
            assert(path[i] == child[i]);
        }
        if k < depth {
            assert(child[k] == parent[k]);
            assert(ladder_precedes_at(shorter, parent, k));
            assert(met_before(shorter, queue[0]));
            assert(!queued_before(queue, last_but_one, 0));
            assert(!unvisited.contains(last_but_one));
            assert(adjacent(last_but_one, target));
            assert(queued(queue, target));
            let i = choose|i: int| 0 <= i < queue.len() && (#[trigger] queue[i]).last() == target;
            assert(next[i - 1] == queue[i]);
        } else {
            assert(shorter =~= parent);
            assert(precedes(target, child.last()));
            assert(adjacent(parent.last(), target));
            assert(queued(children, target));
            let m = choose|m: int|
                0 <= m < children.len() && (#[trigger] children[m]).last() == target;
            lemma_precedes_irreflexive(target);
            if place < m {
                lemma_precedes_asymmetric(child.last(), children[m].last());
            }
            assert(next[rest.len() + m] == children[m]);
        }
    }
}

/// Expanding the first entry of the queue keeps the search in order: the
/// entry leaves the queue, its word leaves the unvisited words, and its
/// children join the queue at the back.
pub proof fn lemma_search_expands(
    all: Set<Seq<char>>,
    unvisited: Set<Seq<char>>,
    queue: Seq<Seq<Seq<char>>>,
    start: Seq<char>,
    end: Seq<char>,
    children: Seq<Seq<Seq<char>>>,
)
    requires
        search_invariant(all, unvisited, queue, start, end),
        queue.len() > 0,
        children_of(queue[0], unvisited.remove(queue[0].last()), children, end),
    ensures
        search_invariant(
            all,
            unvisited.remove(queue[0].last()),
            queue.drop_first() + children,
            start,
            end,
        ),
{
    let parent = queue[0];
    let word = parent.last();
    let rest = queue.drop_first();
    let left = unvisited.remove(word);
    let next = rest + children;
    let depth = parent.len() as int;

    assert(is_ladder(parent, all));
    assert(all.contains(parent[parent.len() - 1]));

    // Every old entry but the first is still there, one place further on.
    assert forall|j: int| 1 <= j < queue.len() implies #[trigger] queue[j] == next[j - 1] by {}
    // Every entry holds between `depth` and `depth + 1` words.
    assert forall|j: int| 0 <= j < next.len() implies depth <= (#[trigger] next[j]).len() <= depth
        + 1 by {
        if j < rest.len() {
            assert(next[j] == queue[j + 1]);
            assert(queue[0].len() <= queue[j + 1].len());
        } else {
            assert(next[j] == children[j - rest.len()]);
        }
    }
    // A word that was queued is the expanded word or is queued still.
    assert forall|other: Seq<char>, limit: int| #[trigger]
        queued_within(queue, other, limit) implies other == word || queued_within(
        next,
        other,
        limit,
    ) by {
        let j = choose|j: int|
            0 <= j < queue.len() && (#[trigger] queue[j]).last() == other && queue[j].len()
                <= limit;
        if j > 0 {
            assert(next[j - 1] == queue[j]);
        }
    }
    assert forall|other: Seq<char>| #[trigger] queued(queue, other) implies other == word
        || queued(next, other) by {
        let j = choose|j: int| 0 <= j < queue.len() && (#[trigger] queue[j]).last() == other;
        if j > 0 {
            assert(next[j - 1] == queue[j]);
        }
    }
    // A word that has a child is queued.
    assert forall|other: Seq<char>| #[trigger] queued(children, other) implies queued_within(
        next,
        other,
        depth + 1,
    ) by {
        let k = choose|k: int| 0 <= k < children.len() && (#[trigger] children[k]).last() == other;
        assert(next[rest.len() + k] == children[k]);
    }

    assert(entries_valid(all, next, start, end)) by {
        assert forall|j: int| 0 <= j < next.len() implies {
            &&& is_ladder(#[trigger] next[j], all)
            &&& next[j].first() == start
            &&& next[j].last() != end
        } by {
            if j < rest.len() {
                assert(next[j] == queue[j + 1]);
            } else {
                let child = children[j - rest.len()];
                assert(next[j] == child);
                lemma_extend(parent, all, child.last());
            }
        }
    }
    assert(levels_ordered(next)) by {
        assert forall|i: int, j: int| 0 <= i <= j < next.len() implies {
            &&& (#[trigger] next[i]).len() <= (#[trigger] next[j]).len()
            &&& next[j].len() <= next[0].len() + 1
        } by {
            if j < rest.len() {
                assert(next[i] == queue[i + 1]);
                assert(next[j] == queue[j + 1]);
                assert(queue[i + 1].len() <= queue[j + 1].len());
            } else {
                assert(next[j] == children[j - rest.len()]);
            }
        }
    }
    assert(closed_under_steps(all, left, next)) by {
        assert forall|u: Seq<char>, v: Seq<char>|
            all.contains(u) && !left.contains(u) && all.contains(v) && #[trigger] adjacent(
                u,
                v,
            ) implies !left.contains(v) || queued(next, v) by {
            if left.contains(v) {
                if u == word {
                    assert(queued(children, v));
                } else {
                    assert(queued(queue, v));
                }
            }
        }
    }
    assert(levels_complete(all, left, next, start)) by {
        assert forall|path: Seq<Seq<char>>|
            next.len() > 0 && #[trigger] is_ladder(path, all) && path.first() == start
                && path.len() <= next[0].len() implies !left.contains(path.last())
            || queued_within(next, path.last(), path.len() as int) by {
            if left.contains(path.last()) {
                if path.len() <= depth {
                    assert(queued_within(queue, path.last(), path.len() as int));
                } else {
                    lemma_shorten(path, all);
                    let shorter = path.drop_last();
                    let last_but_one = shorter.last();
                    assert(is_ladder(shorter, all));
                    assert(all.contains(shorter[shorter.len() - 1]));
                    assert(all.contains(path[path.len() - 1]));
                    if left.contains(last_but_one) {
                        assert(queued_within(queue, last_but_one, shorter.len() as int));
                        let j = choose|j: int|
                            0 <= j < next.len() && (#[trigger] next[j]).last() == last_but_one
                                && next[j].len() <= shorter.len();
                        assert(next[0].len() <= next[j].len());
                    }
                    assert(adjacent(last_but_one, path.last()));
                    assert(queued(next, path.last()));
                    let j = choose|j: int|
                        0 <= j < next.len() && (#[trigger] next[j]).last() == path.last();
                    assert(next[j].len() <= depth + 1);
                }
            }
        }
    }
    assert(earlier_ladders_seen(all, left, next, start)) by {
        assert forall|path: Seq<Seq<char>>, j: int|
            0 <= j < next.len() && #[trigger] is_ladder(path, all) && path.first() == start
                && met_before(path, #[trigger] next[j]) implies !left.contains(path.last())
            || queued_before(next, path.last(), j) by {
            if left.contains(path.last()) {
                lemma_earlier_ladder_seen(all, unvisited, queue, start, end, children, path, j);
            }
        }
    }
    assert(!left.contains(start) || queued(next, start)) by {
        if left.contains(start) {
            assert(queued(queue, start));
        }
    }
}

} // verus!
