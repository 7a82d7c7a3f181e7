use bracket_tree::label::{Label, StringLabel};
use bracket_tree::node::Node;

fn label(text: &str) -> StringLabel {
    StringLabel::new(text.to_owned())
}

#[test]
fn new_node_is_a_leaf() {
    let node = Node::new(label("a"));
    assert!(node.is_leaf());
    assert!(node.get_children().is_empty());
    assert_eq!(node.get_label().get_label(), "a");
}

#[test]
fn node_from_label_is_a_leaf() {
    let node = Node::from(label("a"));
    assert!(node.is_leaf());
    assert_eq!(node.get_label().get_label(), "a");
    let other: Node<StringLabel> = label("b").into();
    assert_eq!(other.get_label().get_label(), "b");
}

#[test]
fn children_keep_their_order() {
    let mut node = Node::new(label("root"));
    node.get_children_mut().push(Node::new(label("first")));
    node.get_children_mut().push(Node::new(label("second")));
    assert!(!node.is_leaf());
    assert_eq!(node.get_children().len(), 2);
    assert_eq!(node.get_children()[0].get_label().get_label(), "first");
    assert_eq!(node.get_children()[1].get_label().get_label(), "second");
    assert_eq!(node.get_label().get_label(), "root");
    node.get_children_mut().clear();
    assert!(node.is_leaf());
}

#[test]
fn label_can_be_replaced_in_place() {
    let mut node = Node::new(label("before"));
    node.get_children_mut().push(Node::new(label("child")));
    node.get_label_mut().set_label("after".to_owned());
    assert_eq!(node.get_label().get_label(), "after");
    assert_eq!(node.get_children().len(), 1);
    *node.get_label_mut() = label("again");
    assert_eq!(node.get_label().get_label(), "again");
}

#[test]
fn nodes_work_with_any_label_type() {
    let mut node = Node::new(7u32);
    node.get_children_mut().push(Node::new(8u32));
    assert_eq!(*node.get_label(), 7);
    assert_eq!(*node.get_children()[0].get_label(), 8);
}
