//! A binary tree with an explicit in-order iterator.
//!
//! The iterator keeps a stack of not-yet-visited nodes; the node it yields
//! next is on top, its unvisited ancestors below.  What remains to be
//! visited is always the in-order traversal of the rest of the tree.

use vstd::prelude::*;

verus! {

/// An ordered binary tree.
pub enum BinaryTree<T> {
    Empty,
    NonEmpty(Box<TreeNode<T>>),
}

/// One node: an element between a left and a right subtree.
pub struct TreeNode<T> {
    pub element: T,
    pub left: BinaryTree<T>,
    pub right: BinaryTree<T>,
}

/// The in-order traversal of a tree: left subtree, element, right subtree.
pub open spec fn in_order<T>(t: BinaryTree<T>) -> Seq<T>
    decreases t,
{
    match t {
        BinaryTree::Empty => Seq::empty(),
        BinaryTree::NonEmpty(node) => in_order(node.left) + seq![node.element] + in_order(
            node.right,
        ),
    }
}

/// The state of an in-order traversal: a stack of nodes still to visit,
/// the next one on top (at the vector's end).
pub struct TreeIter<'a, T> {
    pub unvisited: Vec<&'a TreeNode<T>>,
}

/// What a stack of unvisited nodes still yields, top of the stack first:
/// each node's element followed by its right subtree's traversal.
pub open spec fn stack_remaining<T>(s: Seq<&TreeNode<T>>) -> Seq<T>
    decreases s.len(),
{
    if s.len() == 0 {
        Seq::empty()
    } else {
        seq![s.last().element] + in_order(s.last().right) + stack_remaining(s.drop_last())
    }
}

impl<'a, T> TreeIter<'a, T> {
    /// The elements the iteration has not yielded yet, in order.
    pub open spec fn remaining(self) -> Seq<T> {
        stack_remaining(self.unvisited@)
    }

    /// Pushes the left spine of `tree`: afterwards the traversal of `tree`
    /// comes first, then whatever was due before.
    pub fn push_left_edge(&mut self, tree: &'a BinaryTree<T>)
        ensures
            final(self).remaining() == in_order(*tree) + old(self).remaining(),
        decreases *tree,
    {
        match tree {
            BinaryTree::Empty => {
                proof {
                    assert(in_order(*tree) + self.remaining() =~= self.remaining());
                }
            },
            BinaryTree::NonEmpty(node) => {
                let ghost pre = self.unvisited@;
                self.unvisited.push(&**node);
                proof {
                    assert(self.unvisited@.drop_last() =~= pre);
                    assert(self.unvisited@.last() == &**node);
                }
                let ghost mid = self.remaining();
                self.push_left_edge(&node.left);
                proof {
                    assert(mid == seq![node.element] + in_order(node.right) + stack_remaining(
                        pre,
                    ));
                    assert(in_order(node.left) + (seq![node.element] + in_order(node.right)
                        + stack_remaining(pre)) =~= (in_order(node.left) + seq![node.element]
                        + in_order(node.right)) + stack_remaining(pre));
                }
            },
        }
    }

    /// Yields the next element in order, or nothing when the traversal is
    /// over.
    pub fn next(&mut self) -> (r: Option<&'a T>)
        ensures
            old(self).remaining().len() == 0 ==> r is None && final(self).remaining()
                == old(self).remaining(),
            old(self).remaining().len() > 0 ==> r is Some && *r.unwrap() == old(
                self,
            ).remaining()[0] && final(self).remaining() == old(self).remaining().skip(1),
    {
        let ghost pre = self.unvisited@;
        let node = match self.unvisited.pop() {
            Some(n) => n,
            None => {
                proof {
                    assert(pre.len() == 0);
                }
                return None;
            },
        };
        proof {
            assert(node == pre.last());
            assert(self.unvisited@ =~= pre.drop_last());
        }
        self.push_left_edge(&node.right);
        proof {
            assert(stack_remaining(pre) == seq![pre.last().element] + in_order(pre.last().right)
                + stack_remaining(pre.drop_last()));
            assert(self.remaining() =~= stack_remaining(pre).skip(1));
            assert(stack_remaining(pre)[0] == node.element);
        }
        Some(&node.element)
    }
}

impl<T> BinaryTree<T> {
    /// Starts an in-order traversal: the iterator will yield exactly the
    /// in-order elements of the tree.
    pub fn iter<'a>(&'a self) -> (it: TreeIter<'a, T>)
        ensures
            it.remaining() == in_order(*self),
    {
        let mut it = TreeIter { unvisited: Vec::new() };
        proof {
            assert(it.remaining() =~= Seq::<T>::empty());
        }
        it.push_left_edge(self);
        proof {
            assert(in_order(*self) + Seq::<T>::empty() =~= in_order(*self));
        }
        it
    }
}

} // verus!
