//! Tree nodes, and the mathematical trees that stand for them in contracts.
use vstd::prelude::*;

verus! {

/// A tree as a mathematical value: a label and the subtrees below it, from
/// left to right.
pub ghost struct Tree<T> {
    pub label: T,
    pub children: Seq<Tree<T>>,
}

impl<T> Tree<T> {
    /// The tree that has `label` and no children.
    pub open spec fn leaf(label: T) -> Tree<T> {
        Tree { label, children: Seq::empty() }
    }

    /// This tree with `child` added as its last child.
    pub open spec fn with_child(self, child: Tree<T>) -> Tree<T> {
        Tree { label: self.label, children: self.children.push(child) }
    }
}

/// A node of a tree. It owns its label and its children, which are kept in
/// the order in which they were added.
#[derive(Debug)]
pub struct Node<L> {
    label: L,
    children: Vec<Node<L>>,
}

/// The trees that a sequence of nodes stands for, one for one.
pub open spec fn trees_of<L: View>(nodes: Seq<Node<L>>) -> Seq<Tree<L::V>> {
    Seq::new(nodes.len(), |i: int| nodes[i]@)
}

impl<L: View> View for Node<L> {
    type V = Tree<L::V>;

    open spec fn view(&self) -> Tree<L::V> {
        self.spec_tree()
    }
}

impl<L> Node<L> {
    /// The label of the node.
    pub closed spec fn spec_label(&self) -> L {
        self.label
    }

    /// The children of the node, from left to right.
    pub closed spec fn spec_children(&self) -> Seq<Node<L>> {
        self.children@
    }

    /// Builds a leaf that carries `label`.
    pub fn new(label: L) -> (node: Node<L>)
        ensures
            node.spec_label() == label,
            node.spec_children() == Seq::<Node<L>>::empty(),
    {
        Node { label, children: Vec::new() }
    }

    /// The children of the node, from left to right.
    pub fn get_children(&self) -> (children: &Vec<Node<L>>)
        ensures
            children@ == self.spec_children(),
    {
        &self.children
    }

    /// The children of the node, open to change. The label stays as it is.
    pub fn get_children_mut(&mut self) -> (children: &mut Vec<Node<L>>)
        ensures
            children@ == old(self).spec_children(),
            final(self).spec_children() == final(children)@,
            final(self).spec_label() == old(self).spec_label(),
    {
        &mut self.children
    }

    /// Whether the node has no children.
    pub fn is_leaf(&self) -> (leaf: bool)
        ensures
            leaf == (self.spec_children().len() == 0),
    {
        self.children.len() == 0
    }

    /// The label of the node.
    pub fn get_label(&self) -> (label: &L)
        ensures
            *label == self.spec_label(),
    {
        &self.label
    }

    /// The label of the node, open to change. The children stay as they are.
    pub fn get_label_mut(&mut self) -> (label: &mut L)
        ensures
            *label == old(self).spec_label(),
            final(self).spec_label() == *final(label),
            final(self).spec_children() == old(self).spec_children(),
    {
        &mut self.label
    }
}

impl<L> From<L> for Node<L> {
    /// Builds a leaf that carries `value`.
    fn from(value: L) -> (node: Node<L>)
        ensures
            node.spec_label() == value,
            node.spec_children() == Seq::<Node<L>>::empty(),
    {
        Node { label: value, children: Vec::new() }
    }
}

/// Two leaves with one label need not be one value, so `from` is described
/// by its own contract and not by `from_spec`.
impl<L> vstd::std_specs::convert::FromSpecImpl<L> for Node<L> {
    open spec fn obeys_from_spec() -> bool {
        false
    }

    open spec fn from_spec(value: L) -> Node<L> {
        arbitrary()
    }
}

impl<L: View> Node<L> {
    /// The tree that the node stands for: the view of its label over the
    /// trees of its children.
    pub closed spec fn spec_tree(&self) -> Tree<L::V>
        decreases self,
    {
        Tree {
            label: self.label@,
            children: Seq::new(
                self.children@.len(),
                |i: int|
                    if 0 <= i < self.children@.len() {
                        self.children@[i].spec_tree()
                    } else {
                        arbitrary()
                    },
            ),
        }
    }

    /// The tree of a node is made of the view of its label and the trees of
    /// its children.
    pub proof fn lemma_view(self)
        ensures
            self@ == (Tree { label: self.spec_label()@, children: trees_of(self.spec_children()) }),
    {
        assert(self@.children =~= trees_of(self.spec_children()));
    }
}

} // verus!
