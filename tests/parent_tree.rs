use beamsearch_tsp::parent_tree::ParentTreeNode;
use std::rc::Rc;

#[test]
fn create_root() {
    let root = ParentTreeNode::new_root(1.0);

    assert_eq!(*root.data(), 1.0);
}

#[test]
fn create_child() {
    let root = ParentTreeNode::new_root(1.0);
    let child = root.new_child(2.0);

    assert!(child.parent().unwrap().is_same_node(&root));
}

#[test]
fn parents() {
    let root = ParentTreeNode::new_root(1.0);
    let child = root.new_child(2.0);

    let parents: Vec<&ParentTreeNode<f64>> = child.parents();

    assert_eq!(parents.len(), 1);
    assert_eq!(*parents[0].data(), 1.0);
}

#[test]
fn ancestors() {
    let root = ParentTreeNode::new_root(1.0);
    let child = root.new_child(2.0);

    let ancestors: Vec<f64> = child.ancestors().iter().map(|n| *n.data()).collect();

    assert_eq!(ancestors.len(), 2);
    assert_eq!(ancestors, vec![2.0, 1.0]);
}

#[test]
fn bigger_tree_works() {
    let root = ParentTreeNode::new_root(1);

    let mut child = root;
    for i in 2..=10 {
        let _child = child.new_child(i * 100);
        child = child.new_child(i);
    }

    let ancestors: Vec<i32> = child.ancestors().iter().map(|n| *n.data()).collect();

    assert_eq!(ancestors.len(), 10);
    assert_eq!(ancestors, (1..=10).rev().collect::<Vec<i32>>());
}

#[test]
fn unused_nodes_are_effectively_deleted() {
    //Acts as counter for nodes
    let root_counter = Rc::new(0);
    let child_counter = Rc::new(0);

    let root = ParentTreeNode::new_root(root_counter.clone());

    {
        let mut child = root;

        for _i in 1..10 {
            child = child.new_child(child_counter.clone());
        }

        assert_eq!(Rc::strong_count(&root_counter), 2);
        assert_eq!(Rc::strong_count(&child_counter), 10);
    }

    assert_eq!(Rc::strong_count(&root_counter), 1);
    assert_eq!(Rc::strong_count(&child_counter), 1);
}

#[test]
fn is_root() {
    let root = ParentTreeNode::new_root(1.0);
    let child = root.new_child(2.0);

    assert!(root.is_root());
    assert!(!child.is_root());
}

#[test]
fn clone_shares_the_node() {
    let root = ParentTreeNode::new_root(7);
    let child = root.new_child(8);
    let copy = child.clone();

    assert!(copy.is_same_node(&child));
    assert!(!copy.is_same_node(&root));
    assert_eq!(*copy.data(), 8);
    assert!(copy.parent().unwrap().is_same_node(&root));
}

#[test]
fn root_has_no_parents() {
    let root = ParentTreeNode::new_root('a');

    assert!(root.parent().is_none());
    assert!(root.parents().is_empty());
    assert_eq!(root.ancestors().len(), 1);
}
