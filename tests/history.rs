use history_tree::HistoryTree;

fn name_of(tree: &HistoryTree, id: usize) -> String {
    tree.entry(id).unwrap().name.clone()
}

fn parent_of(tree: &HistoryTree, id: usize) -> usize {
    tree.entry(id).unwrap().parent.unwrap()
}

#[test]
fn test_history_tree_visit() {
    let mut tree = HistoryTree::new("/");

    tree.visit("foo");
    assert_eq!(tree.current_entry().name, "foo");
    assert_eq!(name_of(&tree, tree.current_entry().parent.unwrap()), "/");

    tree.visit("bar");
    assert_eq!(tree.current_entry().name, "bar");
    let parent = tree.current_entry().parent.unwrap();
    assert_eq!(name_of(&tree, parent), "foo");
    assert_eq!(name_of(&tree, parent_of(&tree, parent)), "/");
}

#[test]
fn test_history_tree_go_up_down() {
    let mut tree = HistoryTree::new("/");

    tree.visit("foo");
    tree.visit("bar");

    tree.go_up();
    assert_eq!(tree.current_entry().name, "foo");
    assert_eq!(name_of(&tree, tree.current_entry().children[0]), "bar");

    tree.go_up();
    assert_eq!(tree.current_entry().name, "/");
    assert_eq!(name_of(&tree, tree.current_entry().children[0]), "foo");

    tree.go_up();
    assert_eq!(tree.current_entry().name, "/");
    assert_eq!(name_of(&tree, tree.current_entry().children[0]), "foo");
}

#[test]
fn test_tree_pointer_counts() {
    let mut tree = HistoryTree::new("/");
    tree.visit("foo");
    let foo = tree.current_id();
    tree.visit("bar");
    let bar = tree.current_id();
    let root = tree.root_id();

    assert_eq!(tree.weak_count(root), 1); // the parent link of foo

    assert_eq!(tree.strong_count(foo), 1); // the root's child list
    assert_eq!(tree.weak_count(foo), 2); // the parent link of bar and the root's last visited child

    assert_eq!(tree.strong_count(bar), 2); // foo's child list and the cursor
    assert_eq!(tree.weak_count(bar), 1); // foo's last visited child

    tree.go_up();
    tree.go_up();
    assert_eq!(tree.strong_count(bar), 1); // foo's child list only now
    assert_eq!(tree.weak_count(bar), 1); // foo's last visited child

    tree.visit("baz");
    assert_eq!(tree.weak_count(root), 2); // two children
}

#[test]
fn fresh_tree_is_at_root() {
    let tree = HistoryTree::new("/");
    assert_eq!(tree.current_id(), tree.root_id());
    assert_eq!(tree.current_entry().name, "/");
    assert_eq!(tree.current_entry().parent, None);
    assert_eq!(tree.current_entry().last_visited_child, None);
    assert!(tree.current_entry().children.is_empty());
    assert_eq!(tree.entry_count(), 1);
    assert!(tree.entry(1).is_none());
}

#[test]
fn scenario_continues_to_root_floor() {
    let mut tree = HistoryTree::new("/");
    tree.visit("foo");
    tree.visit("bar");
    tree.go_up();
    assert_eq!(tree.current_entry().name, "foo");
    tree.go_up();
    assert_eq!(tree.current_entry().name, "/");
    tree.go_up();
    assert_eq!(tree.current_entry().name, "/");
    assert_eq!(tree.current_id(), 0);
    assert_eq!(tree.entry_count(), 3);
}

#[test]
fn revisit_reuses_child() {
    let mut tree = HistoryTree::new("/");
    tree.visit("foo");
    let first = tree.current_id();
    tree.go_up();
    tree.visit("foo");
    assert_eq!(tree.current_id(), first);
    assert_eq!(tree.entry_count(), 2);
    let root = tree.entry(0).unwrap();
    assert_eq!(root.children.len(), 1);
    assert_eq!(root.children[0], first);
    assert_eq!(tree.strong_count(first), 2);
}

#[test]
fn visit_sets_name_and_parent_each_time() {
    let mut tree = HistoryTree::new("/");
    for name in ["a", "b", "", "a", "b"] {
        let before = tree.current_id();
        tree.visit(name);
        assert_eq!(tree.current_entry().name, name);
        assert_eq!(tree.current_entry().parent, Some(before));
    }
    assert_eq!(tree.entry_count(), 6);
}

#[test]
fn go_up_moves_to_parent_after_visit() {
    let mut tree = HistoryTree::new("/");
    tree.visit("x");
    tree.visit("y");
    let here = tree.current_id();
    let parent = tree.current_entry().parent.unwrap();
    tree.go_up();
    assert_eq!(tree.current_id(), parent);
    tree.visit("y");
    assert_eq!(tree.current_id(), here);
}

#[test]
fn root_floor_many_times() {
    let mut tree = HistoryTree::new("/");
    tree.visit("foo");
    tree.go_up();
    for _ in 0..10 {
        tree.go_up();
        assert_eq!(tree.current_id(), tree.root_id());
    }
    assert_eq!(tree.entry_count(), 2);
}

#[test]
fn each_non_root_entry_has_one_owner() {
    let mut tree = HistoryTree::new("/");
    tree.visit("foo");
    tree.visit("bar");
    tree.go_up();
    tree.go_up();
    tree.visit("baz");
    tree.visit("foo");
    tree.go_up();
    tree.go_up();
    assert_eq!(tree.current_id(), 0);
    assert_eq!(tree.entry_count(), 5);
    for id in 1..tree.entry_count() {
        assert_eq!(tree.strong_count(id), 1);
    }
    assert_eq!(tree.strong_count(0), 2);
    assert_eq!(tree.strong_count(17), 0);
    assert_eq!(tree.weak_count(17), 0);
}

#[test]
fn sibling_names_are_unique_only_per_parent() {
    let mut tree = HistoryTree::new("/");
    tree.visit("foo");
    tree.visit("foo");
    let inner = tree.current_id();
    let outer = tree.current_entry().parent.unwrap();
    assert_ne!(inner, outer);
    assert_eq!(name_of(&tree, outer), "foo");
    assert_eq!(parent_of(&tree, outer), 0);
    assert_eq!(tree.entry_count(), 3);
}

#[test]
fn names_match_exactly() {
    let mut tree = HistoryTree::new("/");
    tree.visit("Foo");
    tree.go_up();
    tree.visit("foo");
    tree.go_up();
    tree.visit("foo ");
    tree.go_up();
    assert_eq!(tree.current_entry().children.len(), 3);
}

#[test]
fn last_visited_child_follows_visits() {
    // The link is set on the entry left by every visit, including the one
    // that creates the child.
    let mut tree = HistoryTree::new("/");
    tree.visit("a");
    let a = tree.current_id();
    tree.go_up();
    assert_eq!(tree.current_entry().last_visited_child, Some(a));
    tree.visit("b");
    let b = tree.current_id();
    tree.go_up();
    assert_eq!(tree.current_entry().last_visited_child, Some(b));
    tree.visit("a");
    tree.go_up();
    assert_eq!(tree.current_entry().last_visited_child, Some(a));
    assert_eq!(tree.current_entry().children, vec![a, b]);
    assert_eq!(tree.entry(a).unwrap().last_visited_child, None);
}
