//! A bare binary tree of values. Only root placement is wired up: inserting
//! into an empty tree fills the root, and an occupied tree is left as it is.

use vstd::prelude::*;

verus! {

/// A binary tree holding one value at each node.
#[derive(Debug, PartialEq)]
pub struct BinaryTree<T> {
    pub root: Option<Box<Node<T>>>,
}

/// One node of the tree.
#[derive(Debug, PartialEq)]
pub struct Node<T> {
    pub value: T,
    pub left: Option<Box<Node<T>>>,
    pub right: Option<Box<Node<T>>>,
}

impl<T> Node<T> {
    /// A leaf node holding `value`.
    pub fn new(value: T) -> (r: Node<T>)
        ensures
            r.value == value,
            r.left is None,
            r.right is None,
    {
        Node { value, left: None, right: None }
    }
}

impl<T> BinaryTree<T> {
    /// An empty tree.
    pub fn new() -> (r: BinaryTree<T>)
        ensures
            r.root is None,
    {
        BinaryTree { root: None }
    }

    /// Places `value` at the root of an empty tree; an occupied tree keeps
    /// its contents.
    pub fn insert(&mut self, value: T)
        ensures
            old(self).root is None ==> final(self).root == Some(
                Box::new(Node { value, left: None::<Box<Node<T>>>, right: None::<Box<Node<T>>> }),
            ),
            old(self).root is Some ==> *final(self) == *old(self),
    {
        if self.root.is_none() {
            self.root = Some(Box::new(Node::new(value)));
        }
    }
}

} // verus!
