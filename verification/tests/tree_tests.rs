use arena_tree::tree::NodeId;
use arena_tree::tree::Tree;

#[test]
fn creation() {
    let mut tree = Tree::new(1);
    let parent = tree.root();
    let child = tree.create_node(0);
    tree.add_child(parent, child);

    println!("Tree: {:#?}", tree);
    assert_eq!(tree.size(), 2);
    assert_eq!(tree.height(parent), Some(0));
    assert_eq!(tree.height(child), Some(1));
    assert_eq!(*tree.get(parent).unwrap(), 1);
    assert_eq!(*tree.get(child).unwrap(), 0);
    assert_eq!(tree.parent_id(parent), None);
    assert_eq!(tree.parent_id(child).unwrap(), parent);
    assert_eq!(tree.children_ids(parent).unwrap().as_slice(), &[child]);
}

#[test]
fn insertion() {
    let mut tree = Tree::new(0);
    let parent = tree.root();
    let child = tree.create_node(2);
    tree.add_child(parent, child);
    let before = tree.create_node(1);
    tree.insert_before(child, before);
    let after = tree.create_node(3);
    tree.insert_after(child, after);

    println!("Tree: {:#?}", tree);
    assert_eq!(tree.size(), 4);
    assert_eq!(tree.height(parent), Some(0));
    assert_eq!(tree.height(child), Some(1));
    assert_eq!(tree.height(before), Some(1));
    assert_eq!(tree.height(after), Some(1));
    assert_eq!(*tree.get(parent).unwrap(), 0);
    assert_eq!(*tree.get(before).unwrap(), 1);
    assert_eq!(*tree.get(child).unwrap(), 2);
    assert_eq!(*tree.get(after).unwrap(), 3);
    assert_eq!(tree.parent_id(before).unwrap(), parent);
    assert_eq!(tree.parent_id(child).unwrap(), parent);
    assert_eq!(tree.parent_id(after).unwrap(), parent);
    assert_eq!(
        tree.children_ids(parent).unwrap().as_slice(),
        &[before, child, after]
    );
}

#[test]
fn deletion() {
    let mut tree = Tree::new(0);
    let parent = tree.root();
    let child = tree.create_node(2);
    tree.add_child(parent, child);
    let before = tree.create_node(1);
    tree.insert_before(child, before);
    let after = tree.create_node(3);
    tree.insert_after(child, after);

    println!("Tree: {:#?}", tree);
    assert_eq!(tree.size(), 4);
    assert_eq!(tree.height(parent), Some(0));
    assert_eq!(tree.height(child), Some(1));
    assert_eq!(tree.height(before), Some(1));
    assert_eq!(tree.height(after), Some(1));
    assert_eq!(*tree.get(parent).unwrap(), 0);
    assert_eq!(*tree.get(before).unwrap(), 1);
    assert_eq!(*tree.get(child).unwrap(), 2);
    assert_eq!(*tree.get(after).unwrap(), 3);
    assert_eq!(tree.parent_id(before).unwrap(), parent);
    assert_eq!(tree.parent_id(child).unwrap(), parent);
    assert_eq!(tree.parent_id(after).unwrap(), parent);
    assert_eq!(
        tree.children_ids(parent).unwrap().as_slice(),
        &[before, child, after]
    );

    tree.remove(child);

    println!("Tree: {:#?}", tree);
    assert_eq!(tree.size(), 3);
    assert_eq!(tree.height(parent), Some(0));
    assert_eq!(tree.height(before), Some(1));
    assert_eq!(tree.height(after), Some(1));
    assert_eq!(*tree.get(parent).unwrap(), 0);
    assert_eq!(*tree.get(before).unwrap(), 1);
    assert_eq!(tree.get(child), None);
    assert_eq!(*tree.get(after).unwrap(), 3);
    assert_eq!(tree.parent_id(before).unwrap(), parent);
    assert_eq!(tree.parent_id(after).unwrap(), parent);
    assert_eq!(
        tree.children_ids(parent).unwrap().as_slice(),
        &[before, after]
    );

    tree.remove(before);

    println!("Tree: {:#?}", tree);
    assert_eq!(tree.size(), 2);
    assert_eq!(tree.height(parent), Some(0));
    assert_eq!(tree.height(after), Some(1));
    assert_eq!(*tree.get(parent).unwrap(), 0);
    assert_eq!(tree.get(before), None);
    assert_eq!(*tree.get(after).unwrap(), 3);
    assert_eq!(tree.parent_id(after).unwrap(), parent);
    assert_eq!(tree.children_ids(parent).unwrap().as_slice(), &[after]);

    tree.remove(after);

    println!("Tree: {:#?}", tree);
    assert_eq!(tree.size(), 1);
    assert_eq!(tree.height(parent), Some(0));
    assert_eq!(*tree.get(parent).unwrap(), 0);
    assert_eq!(tree.get(after), None);
    assert_eq!(tree.children_ids(parent).unwrap().as_slice(), &[] as &[NodeId]);
}

#[derive(Debug, PartialEq)]
struct Value {
    value: i32,
}

impl Value {
    fn new(value: i32) -> Self {
        Self { value }
    }
}

#[test]
fn map() {
    let mut tree = Tree::new(Value::new(1));
    let parent = tree.root();
    let child = tree.create_node(Value::new(0));
    tree.add_child(parent, child);

    let mut mapped = tree.map(|x: &Value| x.value, |_x: &Value, v: i32| Value::new(v));

    assert!(mapped.set(child, 1));
    assert!(mapped.set(parent, 2));

    let tree = mapped.into_inner();
    assert_eq!(*tree.get(parent).unwrap(), Value::new(2));
    assert_eq!(*tree.get(child).unwrap(), Value::new(1));
}

#[test]
fn traverse_depth_first() {
    let mut tree = Tree::new(0);
    let parent = tree.root();
    let child1 = tree.create_node(1);
    tree.add_child(parent, child1);
    let grandchild1 = tree.create_node(2);
    tree.add_child(child1, grandchild1);
    let child2 = tree.create_node(3);
    tree.add_child(parent, child2);
    let grandchild2 = tree.create_node(4);
    tree.add_child(child2, grandchild2);

    let mut node_count = 0;
    for id in tree.traverse_depth_first() {
        assert_eq!(*tree.get(id).unwrap(), node_count);
        node_count += 1;
    }
    assert_eq!(node_count, 5);
}

#[test]
fn traverse_breadth_first_levels() {
    let mut tree = Tree::new(0);
    let parent = tree.root();
    let child1 = tree.create_node(1);
    tree.add_child(parent, child1);
    let grandchild1 = tree.create_node(3);
    tree.add_child(child1, grandchild1);
    let child2 = tree.create_node(2);
    tree.add_child(parent, child2);
    let grandchild2 = tree.create_node(4);
    tree.add_child(child2, grandchild2);

    let order: Vec<i32> = tree
        .traverse_breadth_first()
        .into_iter()
        .map(|id| *tree.get(id).unwrap())
        .collect();
    assert_eq!(order, vec![0, 1, 2, 3, 4]);
}

#[test]
fn remove_subtree_counts() {
    let mut tree = Tree::new(0);
    let root = tree.root();
    let a = tree.create_node(1);
    tree.add_child(root, a);
    let b = tree.create_node(2);
    tree.add_child(a, b);
    let c = tree.create_node(3);
    tree.add_child(b, c);
    assert_eq!(tree.size(), 4);

    // Removing a three-node subtree shrinks the count by exactly three and
    // makes every handle in it unknown.
    assert_eq!(tree.remove(a), Some(1));
    assert_eq!(tree.size(), 1);
    assert_eq!(tree.get(a), None);
    assert_eq!(tree.get(b), None);
    assert_eq!(tree.get(c), None);
    assert_eq!(tree.height(a), None);
    assert_eq!(tree.parent_id(b), None);
    assert_eq!(tree.children_ids(root).unwrap().as_slice(), &[] as &[NodeId]);

    // A removed handle reports not-found everywhere.
    assert_eq!(tree.remove(a), None);
}

#[test]
fn remove_all_children_in_order() {
    let mut tree = Tree::new(10);
    let root = tree.root();
    let a = tree.create_node(11);
    tree.add_child(root, a);
    let b = tree.create_node(12);
    tree.add_child(root, b);
    let under_a = tree.create_node(13);
    tree.add_child(a, under_a);

    let removed = tree.remove_all_children(root);
    assert_eq!(removed, vec![11, 12]);
    assert_eq!(tree.size(), 1);
    assert_eq!(tree.children_ids(root).unwrap().as_slice(), &[] as &[NodeId]);
    assert_eq!(tree.get(a), None);
    assert_eq!(tree.get(b), None);
    assert_eq!(tree.get(under_a), None);
    assert_eq!(*tree.get(root).unwrap(), 10);
}

#[test]
fn replace_keeps_position() {
    let mut tree = Tree::new(0);
    let root = tree.root();
    let left = tree.create_node(1);
    tree.add_child(root, left);
    let middle = tree.create_node(2);
    tree.add_child(root, middle);
    let right = tree.create_node(3);
    tree.add_child(root, right);
    let below = tree.create_node(4);
    tree.add_child(middle, below);

    let fresh = tree.create_node(20);
    tree.replace(middle, fresh);

    assert_eq!(tree.size(), 4);
    assert_eq!(tree.get(middle), None);
    assert_eq!(tree.get(below), None);
    assert_eq!(*tree.get(fresh).unwrap(), 20);
    assert_eq!(tree.height(fresh), Some(1));
    assert_eq!(tree.parent_id(fresh).unwrap(), root);
    assert_eq!(
        tree.children_ids(root).unwrap().as_slice(),
        &[left, fresh, right]
    );
}

#[test]
fn slot_reuse_after_removal() {
    let mut tree = Tree::new(0);
    let root = tree.root();
    let a = tree.create_node(1);
    tree.add_child(root, a);
    tree.remove(a);
    // The freed slot is reused; the stale handle silently names the new
    // node, as documented.
    let b = tree.create_node(7);
    assert_eq!(b, a);
    assert_eq!(*tree.get(b).unwrap(), 7);
    assert_eq!(tree.parent_id(b), None);
    assert_eq!(tree.height(b), Some(0));
    assert_eq!(tree.size(), 2);
}

#[test]
fn height_propagates_through_attach() {
    let mut tree = Tree::new(0);
    let root = tree.root();
    // Build a detached chain first: sub -> mid -> leaf.
    let sub = tree.create_node(1);
    let mid = tree.create_node(2);
    tree.add_child(sub, mid);
    let leaf = tree.create_node(3);
    tree.add_child(mid, leaf);
    assert_eq!(tree.height(sub), Some(0));
    assert_eq!(tree.height(mid), Some(1));
    assert_eq!(tree.height(leaf), Some(2));

    // Attaching the chain's root shifts the whole subtree one level down.
    let anchor = tree.create_node(9);
    tree.add_child(root, anchor);
    tree.add_child(anchor, sub);
    assert_eq!(tree.height(anchor), Some(1));
    assert_eq!(tree.height(sub), Some(2));
    assert_eq!(tree.height(mid), Some(3));
    assert_eq!(tree.height(leaf), Some(4));
}

#[test]
fn mutation_through_get_mut() {
    let mut tree = Tree::new(5);
    let root = tree.root();
    *tree.get_mut(root).unwrap() = 6;
    assert_eq!(*tree.get(root).unwrap(), 6);
    assert!(tree.get_mut(NodeId(17)).is_none());
    assert_eq!(tree.set_value(root, 8), Ok(6));
    assert_eq!(tree.set_value(NodeId(17), 9), Err(9));
    assert_eq!(*tree.get(root).unwrap(), 8);
}

#[test]
fn children_cursor_walks_in_order() {
    let mut tree = Tree::new(0);
    let root = tree.root();
    let a = tree.create_node(1);
    tree.add_child(root, a);
    let b = tree.create_node(2);
    tree.add_child(root, b);

    let mut it = tree.children(root).unwrap();
    assert_eq!(it.next(), Some(&1));
    assert_eq!(it.next(), Some(&2));
    assert_eq!(it.next(), None);
    assert!(tree.children(NodeId(99)).is_none());
}

#[test]
fn parent_value_lookup() {
    let mut tree = Tree::new(1);
    let root = tree.root();
    let child = tree.create_node(2);
    tree.add_child(root, child);
    assert_eq!(tree.parent(child), Some(&1));
    assert_eq!(tree.parent(root), None);
    assert_eq!(tree.parent(NodeId(50)), None);
    assert!(tree.contains(child));
    assert!(!tree.contains(NodeId(50)));
    assert_eq!(*tree.get_unchecked(child), 2);
}

#[test]
fn adapter_reads_match_base() {
    let mut tree = Tree::new(Value::new(4));
    let root = tree.root();
    let child = tree.create_node(Value::new(5));
    tree.add_child(root, child);

    let mapped = tree.map(|x: &Value| x.value, |_x: &Value, v: i32| Value::new(v));
    // Structural queries delegate unchanged; reads apply the projection.
    assert_eq!(mapped.size(), 2);
    assert_eq!(mapped.root(), root);
    assert_eq!(mapped.height(child), Some(1));
    assert_eq!(mapped.parent_id(child), Some(root));
    assert_eq!(mapped.children_ids(root).unwrap().as_slice(), &[child]);
    assert_eq!(mapped.get(root), Some(4));
    assert_eq!(mapped.get(child), Some(5));
    assert_eq!(mapped.get(NodeId(33)), None);

    let tree = mapped.into_inner();
    assert_eq!(*tree.get(child).unwrap(), Value::new(5));
}

#[test]
fn parent_value_mutation() {
    let mut tree = Tree::new(1);
    let root = tree.root();
    let child = tree.create_node(2);
    tree.add_child(root, child);
    *tree.parent_mut(child).unwrap() = 9;
    assert_eq!(*tree.get(root).unwrap(), 9);
    assert!(tree.parent_mut(root).is_none());
    assert!(tree.parent_mut(NodeId(40)).is_none());
}
