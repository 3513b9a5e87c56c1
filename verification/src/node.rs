//! Search nodes: a value and the node it was reached from.

use std::rc::Rc;
use vstd::prelude::*;

verus! {

/// A value together with the node from which it was discovered. The root of
/// a search has no parent.
pub struct Node<T> {
    pub data: T,
    pub parent: Option<Rc<Node<T>>>,
}

impl<T> Node<T> {
    /// The values on the way from the root down to this node, the root's
    /// first and this node's own last.
    pub open spec fn chain(&self) -> Seq<T>
        decreases self,
    {
        match self.parent {
            None => seq![self.data],
            Some(parent) => parent.chain().push(self.data),
        }
    }

    /// A root node holding `data`.
    pub fn new(data: T) -> (node: Rc<Self>)
        ensures
            node.data == data,
            node.parent is None,
            node.chain() == seq![data],
    {
        Rc::new(Node { data, parent: None })
    }

    /// A node holding `data` that was discovered from `parent`.
    pub fn with_parent(data: T, parent: Rc<Self>) -> (node: Rc<Self>)
        ensures
            node.data == data,
            node.parent == Some(parent),
            node.chain() == parent.chain().push(data),
    {
        let parent = Some(parent);
        Rc::new(Node { data, parent })
    }
}

impl<'a> Node<&'a str> {
    /// The words on the way from the root down to this node.
    pub open spec fn trail(&self) -> Seq<Seq<char>> {
        self.chain().map_values(|word: &'a str| word@)
    }

    /// The trail of a root is its own word; the trail of any other node is
    /// its parent's trail followed by its own word.
    pub proof fn lemma_trail(&self)
        ensures
            self.trail().len() > 0,
            self.trail().last() == self.data@,
            match self.parent {
                None => self.trail() == seq![self.data@],
                Some(parent) => self.trail() == parent.trail().push(self.data@),
            },
    {
        match self.parent {
            None => {
                assert(self.trail() =~= seq![self.data@]);
            },
            Some(parent) => {
                assert(self.trail() =~= parent.trail().push(self.data@));
            },
        }
    }

    /// Walks from this node up to the root, collecting the words, and turns
    /// the collection round so that it reads from the root down to this
    /// node.
    pub fn path(&self) -> (path: Vec<String>)
        ensures
            path.deep_view() == self.trail(),
    {
        let mut upward: Vec<String> = Vec::new();
        let mut node: &Node<&'a str> = self;
        loop
            invariant_except_break
                node.trail() + upward.deep_view().reverse() == self.trail(),
            ensures
                upward.deep_view().reverse() == self.trail(),
            decreases node,
        {
            let ghost collected = upward.deep_view();
            upward.push(node.data.to_string());
            proof {
                node.lemma_trail();
                assert(upward.deep_view() =~= collected.push(node.data@));
                assert(upward.deep_view().reverse() =~= seq![node.data@] + collected.reverse());
            }
            match &node.parent {
                Some(parent) => {
                    proof {
                        assert(parent.trail() + upward.deep_view().reverse() =~= node.trail()
                            + collected.reverse());
                    }
                    node = &**parent;
                },
                None => {
                    proof {
                        assert(upward.deep_view().reverse() =~= node.trail() + collected.reverse());
                    }
                    break ;
                },
            }
        }
        let mut path: Vec<String> = Vec::new();
        while upward.len() > 0
            invariant
                path.deep_view() + upward.deep_view().reverse() == self.trail(),
            decreases upward.len(),
        {
            let ghost placed = path.deep_view();
            let ghost waiting = upward.deep_view();
            let word = upward.pop().unwrap();
            path.push(word);
            proof {
                assert(upward.deep_view() =~= waiting.drop_last());
                assert(path.deep_view() =~= placed.push(waiting.last()));
                assert(path.deep_view() + upward.deep_view().reverse() =~= placed
                    + waiting.reverse());
            }
        }
        proof {
            assert(path.deep_view() =~= path.deep_view() + upward.deep_view().reverse());
        }
        path
    }
}

} // verus!
