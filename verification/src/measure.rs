//! Why a level-order search comes to an end.
//!
//! A word may wait in the queue more than once, so the length of the queue
//! can grow while the unvisited words do not shrink. What does shrink with
//! every expansion is a bound on the work that the queue can still cause.

use vstd::prelude::*;
use vstd::set_lib::lemma_len_subset;

verus! {

/// A bound on the entries that one entry can bring about, itself included,
/// while `remaining` words other than its own are unvisited: the entry
/// itself, and for each of those words one entry with that word visited.
pub open spec fn fanout(remaining: nat) -> nat
    decreases remaining,
{
    if remaining == 0 {
        1
    } else {
        1 + remaining * fanout((remaining - 1) as nat)
    }
}

/// The bound for an entry that stands for `word`.
pub open spec fn entry_weight(unvisited: Set<Seq<char>>, word: Seq<char>) -> nat {
    fanout(unvisited.remove(word).len())
}

/// The bound for a whole queue: the sum of the bounds of its entries.
pub open spec fn queue_weight(unvisited: Set<Seq<char>>, queue: Seq<Seq<Seq<char>>>) -> nat
    decreases queue.len(),
{
    if queue.len() == 0 {
        0
    } else {
        queue_weight(unvisited, queue.drop_last()) + entry_weight(unvisited, queue.last().last())
    }
}

/// With fewer words left, the bound is no larger.
pub proof fn lemma_fanout_monotone(fewer: nat, more: nat)
    requires
        fewer <= more,
    ensures
        fanout(fewer) <= fanout(more),
    decreases more,
{
    if fewer < more {
        let below = (more - 1) as nat;
        lemma_fanout_monotone(fewer, below);
        assert(fanout(below) <= more * fanout(below)) by (nonlinear_arith)
            requires
                more >= 1,
        ;
    }
}

/// The bound of two queues put together is the sum of their bounds.
pub proof fn lemma_queue_weight_concat(
    unvisited: Set<Seq<char>>,
    front: Seq<Seq<Seq<char>>>,
    back: Seq<Seq<Seq<char>>>,
)
    ensures
        queue_weight(unvisited, front + back) == queue_weight(unvisited, front) + queue_weight(
            unvisited,
            back,
        ),
    decreases back.len(),
{
    if back.len() == 0 {
        assert(front + back =~= front);
    } else {
        lemma_queue_weight_concat(unvisited, front, back.drop_last());
        assert((front + back).drop_last() =~= front + back.drop_last());
    }
}

/// Visiting words does not raise the bound of a queue.
pub proof fn lemma_queue_weight_shrinks(
    unvisited: Set<Seq<char>>,
    left: Set<Seq<char>>,
    queue: Seq<Seq<Seq<char>>>,
)
    requires
        unvisited.finite(),
        left.subset_of(unvisited),
    ensures
        queue_weight(left, queue) <= queue_weight(unvisited, queue),
    decreases queue.len(),
{
    if queue.len() > 0 {
        lemma_queue_weight_shrinks(unvisited, left, queue.drop_last());
        let word = queue.last().last();
        lemma_len_subset(left.remove(word), unvisited.remove(word));
        lemma_fanout_monotone(left.remove(word).len(), unvisited.remove(word).len());
    }
}

/// Entries for unvisited words all have the same bound.
pub proof fn lemma_children_weight(left: Set<Seq<char>>, children: Seq<Seq<Seq<char>>>)
    requires
        left.finite(),
        forall|k: int| 0 <= k < children.len() ==> left.contains((#[trigger] children[k]).last()),
    ensures
        queue_weight(left, children) == children.len() * fanout((left.len() - 1) as nat),
    decreases children.len(),
{
    let each = fanout((left.len() - 1) as nat);
    if children.len() == 0 {
        assert(children.len() * each == 0) by (nonlinear_arith)
            requires
                children.len() == 0,
        ;
    } else {
        let earlier = children.drop_last();
        assert forall|k: int| 0 <= k < earlier.len() implies left.contains(
            (#[trigger] earlier[k]).last(),
        ) by {
            assert(earlier[k] == children[k]);
        }
        lemma_children_weight(left, earlier);
        assert(left.contains(children[children.len() - 1].last()));
        assert(children.len() * each == earlier.len() * each + each) by (nonlinear_arith)
            requires
                children.len() == earlier.len() + 1,
        ;
    }
}

/// An expansion lowers the bound of the queue: the expanded entry's bound
/// covers itself and one child for each of the words that are left.
pub proof fn lemma_expansion_lowers_weight(
    unvisited: Set<Seq<char>>,
    queue: Seq<Seq<Seq<char>>>,
    children: Seq<Seq<Seq<char>>>,
)
    requires
        unvisited.finite(),
        queue.len() > 0,
        children.len() <= unvisited.remove(queue[0].last()).len(),
        forall|k: int|
            0 <= k < children.len() ==> unvisited.remove(queue[0].last()).contains(
                (#[trigger] children[k]).last(),
            ),
    ensures
        queue_weight(unvisited.remove(queue[0].last()), queue.drop_first() + children)
            < queue_weight(unvisited, queue),
{
    let word = queue[0].last();
    let left = unvisited.remove(word);
    let rest = queue.drop_first();
    let first = seq![queue[0]];
    let count = left.len();
    let each = fanout((count - 1) as nat);

    assert(queue =~= first + rest);
    lemma_queue_weight_concat(unvisited, first, rest);
    assert(queue_weight(unvisited, first) == fanout(count)) by {
        assert(first.drop_last() =~= Seq::empty());
        assert(queue_weight(unvisited, first.drop_last()) == 0);
        assert(first.last().last() == word);
    }
    lemma_queue_weight_concat(left, rest, children);
    lemma_queue_weight_shrinks(unvisited, left, rest);
    lemma_children_weight(left, children);
    assert(children.len() * each < fanout(count)) by {
        if count > 0 {
            assert(children.len() * each <= count * each) by (nonlinear_arith)
                requires
                    children.len() <= count,
            ;
        } else {
            assert(children.len() * each == 0) by (nonlinear_arith)
                requires
                    children.len() == 0,
            ;
        }
    }
}

} // verus!
