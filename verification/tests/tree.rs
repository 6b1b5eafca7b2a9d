use bevy_dioxus::identity::NodeId;
use bevy_dioxus::style::{Display, Style};
use bevy_dioxus::tree::{NodeKind, RetainedTree, TreeError};

fn children(tree: &RetainedTree, id: NodeId) -> Vec<NodeId> {
    tree.node(id).unwrap().children.clone()
}

fn parent(tree: &RetainedTree, id: NodeId) -> Option<NodeId> {
    tree.node(id).unwrap().parent
}

fn family(tree: &mut RetainedTree, count: usize) -> (NodeId, Vec<NodeId>) {
    let root = tree.spawn(Style::default(), None);
    let mut kids = Vec::new();
    for _ in 0..count {
        let kid = tree.spawn(Style::default(), None);
        assert_eq!(tree.add_child(root, kid), Ok(()));
        kids.push(kid);
    }
    (root, kids)
}

#[test]
fn spawned_nodes_get_fresh_identities() {
    let mut tree = RetainedTree::new();
    assert!(!tree.contains(NodeId(0)));
    assert_eq!(tree.next_id(), NodeId(0));
    let a = tree.spawn(Style::default(), None);
    let b = tree.spawn(Style::default(), Some("hi".to_string()));
    assert_eq!(a, NodeId(0));
    assert_eq!(b, NodeId(1));
    assert_eq!(tree.next_id(), NodeId(2));
    assert!(tree.contains(a) && tree.contains(b));
    assert!(!tree.contains(NodeId(2)));
    assert!(tree.node(NodeId(2)).is_none());
    let node = tree.node(a).unwrap();
    assert_eq!(node.kind(), NodeKind::Container);
    assert_eq!(node.style, Style::default());
    assert_eq!(node.text, None);
    assert!(node.children.is_empty());
    assert_eq!(node.parent, None);
    let leaf = tree.node(b).unwrap();
    assert_eq!(leaf.kind(), NodeKind::TextLeaf);
    assert_eq!(leaf.text.as_deref(), Some("hi"));
}

#[test]
fn identities_are_not_given_out_again() {
    let mut tree = RetainedTree::new();
    let a = tree.spawn(Style::default(), None);
    assert_eq!(tree.despawn_recursive(a), vec![a]);
    let b = tree.spawn(Style::default(), None);
    assert_ne!(a, b);
    assert!(!tree.contains(a));
    assert!(tree.contains(b));
}

#[test]
fn add_child_appends_in_order() {
    let mut tree = RetainedTree::new();
    let (root, kids) = family(&mut tree, 3);
    assert_eq!(children(&tree, root), kids);
    for kid in &kids {
        assert_eq!(parent(&tree, *kid), Some(root));
    }
    assert_eq!(tree.position(kids[1]), Some((root, 1)));
    assert_eq!(tree.position(root), None);
    assert_eq!(tree.position(NodeId(99)), None);
}

#[test]
fn add_child_moves_a_node_that_has_a_parent() {
    let mut tree = RetainedTree::new();
    let (root, kids) = family(&mut tree, 3);
    assert_eq!(tree.add_child(kids[2], kids[0]), Ok(()));
    assert_eq!(children(&tree, root), vec![kids[1], kids[2]]);
    assert_eq!(children(&tree, kids[2]), vec![kids[0]]);
    assert_eq!(parent(&tree, kids[0]), Some(kids[2]));
    assert_eq!(tree.add_child(root, kids[1]), Ok(()));
    assert_eq!(children(&tree, root), vec![kids[2], kids[1]]);
}

#[test]
fn add_child_refusals_change_nothing() {
    let mut tree = RetainedTree::new();
    let (root, kids) = family(&mut tree, 2);
    assert_eq!(tree.add_child(root, root), Err(TreeError::SelfParent));
    assert_eq!(tree.add_child(root, NodeId(99)), Err(TreeError::NoSuchNode));
    assert_eq!(tree.add_child(NodeId(99), root), Err(TreeError::NoSuchNode));
    assert_eq!(tree.add_child_error(root, kids[0]), None);
    assert_eq!(tree.add_child_error(root, root), Some(TreeError::SelfParent));
    assert_eq!(children(&tree, root), kids);
}

#[test]
fn attach_places_a_detached_node_at_an_index() {
    let mut tree = RetainedTree::new();
    let (root, kids) = family(&mut tree, 2);
    let fresh = tree.spawn(Style::default(), None);
    assert_eq!(tree.attach(root, 1, fresh), Ok(()));
    assert_eq!(children(&tree, root), vec![kids[0], fresh, kids[1]]);
    assert_eq!(parent(&tree, fresh), Some(root));
}

#[test]
fn attach_refusals_change_nothing() {
    let mut tree = RetainedTree::new();
    let (root, kids) = family(&mut tree, 2);
    let fresh = tree.spawn(Style::default(), None);
    assert_eq!(tree.attach(root, 3, fresh), Err(TreeError::IndexOutOfBounds));
    assert_eq!(tree.attach(root, 0, kids[0]), Err(TreeError::AlreadyAttached));
    assert_eq!(tree.attach(fresh, 0, fresh), Err(TreeError::SelfParent));
    assert_eq!(tree.attach(NodeId(99), 0, fresh), Err(TreeError::NoSuchNode));
    assert_eq!(tree.attach(root, 0, NodeId(99)), Err(TreeError::NoSuchNode));
    assert_eq!(children(&tree, root), kids);
    assert_eq!(parent(&tree, fresh), None);
}

#[test]
fn detach_takes_a_node_out_of_its_parent() {
    let mut tree = RetainedTree::new();
    let (root, kids) = family(&mut tree, 3);
    tree.detach(kids[1]);
    assert_eq!(children(&tree, root), vec![kids[0], kids[2]]);
    assert_eq!(parent(&tree, kids[1]), None);
    assert!(tree.contains(kids[1]));
    tree.detach(kids[1]);
    tree.detach(root);
    tree.detach(NodeId(99));
    assert_eq!(children(&tree, root), vec![kids[0], kids[2]]);
}

#[test]
fn insert_beside_places_before_and_after() {
    let mut tree = RetainedTree::new();
    let (root, kids) = family(&mut tree, 3);
    let a = tree.spawn(Style::default(), None);
    let b = tree.spawn(Style::default(), None);
    assert_eq!(tree.insert_beside(kids[1], a, false), Ok(()));
    assert_eq!(children(&tree, root), vec![kids[0], a, kids[1], kids[2]]);
    assert_eq!(tree.insert_beside(kids[1], b, true), Ok(()));
    assert_eq!(children(&tree, root), vec![kids[0], a, kids[1], b, kids[2]]);
    assert_eq!(tree.insert_beside(kids[2], kids[0], true), Ok(()));
    assert_eq!(children(&tree, root), vec![a, kids[1], b, kids[2], kids[0]]);
    assert_eq!(tree.insert_beside(a, kids[0], false), Ok(()));
    assert_eq!(children(&tree, root), vec![kids[0], a, kids[1], b, kids[2]]);
}

#[test]
fn insert_beside_refusals_change_nothing() {
    let mut tree = RetainedTree::new();
    let (root, kids) = family(&mut tree, 2);
    let fresh = tree.spawn(Style::default(), None);
    assert_eq!(tree.insert_beside(root, fresh, false), Err(TreeError::Detached));
    assert_eq!(tree.insert_beside(NodeId(99), fresh, false), Err(TreeError::NoSuchNode));
    assert_eq!(tree.insert_beside(kids[0], NodeId(99), true), Err(TreeError::NoSuchNode));
    assert_eq!(tree.insert_beside(kids[0], kids[0], true), Err(TreeError::SelfSibling));
    assert_eq!(tree.insert_beside(kids[0], root, true), Err(TreeError::SelfParent));
    assert_eq!(tree.anchor_error(root), Some(TreeError::Detached));
    assert_eq!(tree.anchor_error(kids[0]), None);
    assert_eq!(tree.beside_error(kids[0], fresh), None);
    assert_eq!(children(&tree, root), kids);
}

#[test]
fn walk_follows_child_indices() {
    let mut tree = RetainedTree::new();
    let (root, kids) = family(&mut tree, 3);
    let deep = tree.spawn(Style::default(), Some("deep".to_string()));
    assert_eq!(tree.add_child(kids[2], deep), Ok(()));
    assert_eq!(tree.walk(root, &vec![]), Some(root));
    assert_eq!(tree.walk(root, &vec![1]), Some(kids[1]));
    assert_eq!(tree.walk(root, &vec![2, 0]), Some(deep));
    assert_eq!(tree.walk(root, &vec![3]), None);
    assert_eq!(tree.walk(root, &vec![2, 1]), None);
    assert_eq!(tree.walk(root, &vec![2, 0, 0]), None);
    assert_eq!(tree.walk(NodeId(99), &vec![]), None);
}

#[test]
fn despawn_removes_the_whole_subtree() {
    let mut tree = RetainedTree::new();
    let (root, kids) = family(&mut tree, 3);
    let grandchild = tree.spawn(Style::default(), None);
    let great = tree.spawn(Style::default(), Some("x".to_string()));
    assert_eq!(tree.add_child(kids[1], grandchild), Ok(()));
    assert_eq!(tree.add_child(grandchild, great), Ok(()));
    let mut removed = tree.despawn_recursive(kids[1]);
    removed.sort_by_key(|id| id.0);
    assert_eq!(removed, vec![kids[1], grandchild, great]);
    assert!(!tree.contains(kids[1]));
    assert!(!tree.contains(grandchild));
    assert!(!tree.contains(great));
    assert_eq!(children(&tree, root), vec![kids[0], kids[2]]);
    assert!(tree.contains(root) && tree.contains(kids[0]) && tree.contains(kids[2]));
    assert_eq!(tree.despawn_recursive(kids[1]), Vec::new());
}

#[test]
fn despawn_of_the_root_empties_the_tree() {
    let mut tree = RetainedTree::new();
    let (root, kids) = family(&mut tree, 4);
    let removed = tree.despawn_recursive(root);
    assert_eq!(removed.len(), 5);
    assert!(!tree.contains(root));
    for kid in kids {
        assert!(!tree.contains(kid));
    }
}

#[test]
fn payload_edits_keep_the_links() {
    let mut tree = RetainedTree::new();
    let (root, kids) = family(&mut tree, 2);
    let style = Style { display: Display::Grid, ..Style::default() };
    assert!(tree.set_style(root, style));
    assert!(tree.set_text(kids[0], "hello".to_string()));
    assert!(!tree.set_style(NodeId(99), style));
    assert!(!tree.set_text(NodeId(99), "x".to_string()));
    assert_eq!(tree.node(root).unwrap().style, style);
    assert_eq!(tree.node(root).unwrap().kind(), NodeKind::Container);
    assert_eq!(tree.node(kids[0]).unwrap().text.as_deref(), Some("hello"));
    assert_eq!(tree.node(kids[0]).unwrap().kind(), NodeKind::TextLeaf);
    assert_eq!(children(&tree, root), kids);
    assert_eq!(parent(&tree, kids[0]), Some(root));
}
